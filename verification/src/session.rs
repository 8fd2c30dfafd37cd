//! The steps that have to be taken, in order, to start a network trace and to ask
//! for a privilege. The caller performs each step and hands back the answer.
use vstd::prelude::*;

use crate::text;
use crate::text::push_decimal;

verus! {

/// Whether `handle` stands for a trace that is open.
pub open spec fn is_open(handle: u64) -> bool {
    handle != 0 && handle != u64::MAX
}

/// Tests whether a handle stands for a trace that is open. Only such a trace has to
/// be closed.
pub fn is_open_trace(handle: u64) -> (r: bool)
    ensures
        r == is_open(handle),
{
    handle != u64::MAX && handle != 0
}

/// The name of the trace session of the process with the number `pid`.
pub fn session_name(pid: u32) -> (s: String)
    ensures
        s@ == "procpulse_net_"@ + text::decimal(pid as nat),
{
    let mut s: String = "procpulse_net_".to_owned();
    push_decimal(&mut s, pid as u64);
    s
}

/// Two processes never share a session name.
pub proof fn law_session_names_differ(p: u32, q: u32)
    requires
        p != q,
    ensures
        "procpulse_net_"@ + text::decimal(p as nat) != "procpulse_net_"@ + text::decimal(q as nat),
{
    let a = "procpulse_net_"@ + text::decimal(p as nat);
    let b = "procpulse_net_"@ + text::decimal(q as nat);
    let n = "procpulse_net_"@.len() as int;
    if a == b {
        assert(a.skip(n) == text::decimal(p as nat));
        assert(b.skip(n) == text::decimal(q as nat));
        text::law_decimal_is_injective(p as nat, q as nat);
    }
}

/// The level of the events that a session asks for: informational ones and above.
pub const TRACE_LEVEL: u8 = 4;

/// The keywords of the events that a session asks for: IPv4 and IPv6 traffic.
pub const TRACE_KEYWORDS: u64 = 0x30;

/// The properties of a session.
#[derive(Debug, Clone, Copy, PartialEq, Eq, Structural)]
pub struct TraceProperties {
    /// The size of the properties with the name and some room.
    pub total_size: usize,
    /// The clock of the session: the performance counter.
    pub client_context: u32,
    pub buffer_kb: u32,
    pub minimum_buffers: u32,
    pub maximum_buffers: u32,
    /// Where the name of the session begins.
    pub logger_name_offset: usize,
}

/// The properties of a session with a name of `name_units` units in UTF-16. The
/// system's own part of them takes `header_size` bytes.
pub fn trace_properties(header_size: usize, name_units: usize) -> (p: TraceProperties)
    requires
        header_size + 2 * name_units + 256 <= usize::MAX,
    ensures
        p == (TraceProperties {
            total_size: (header_size + 2 * name_units + 256) as usize,
            client_context: 1,
            buffer_kb: 64,
            minimum_buffers: 4,
            maximum_buffers: 16,
            logger_name_offset: header_size,
        }),
{
    TraceProperties {
        total_size: header_size + name_units * 2 + 256,
        client_context: 1,
        buffer_kb: 64,
        minimum_buffers: 4,
        maximum_buffers: 16,
        logger_name_offset: header_size,
    }
}

/// How far the start of a trace session has come: the step to take next, or the
/// result.
#[derive(Debug, Clone, Copy, PartialEq, Eq, Structural)]
pub enum SessionPhase {
    /// Stop a session with the same name that was left over.
    StopLeftover,
    /// Start the session.
    StartTrace,
    /// Enable the provider of the events.
    EnableProvider,
    /// Open the trace for reading.
    OpenTrace,
    /// Spawn the thread that reads the open trace.
    SpawnReader(u64),
    /// Stop the session because of an error.
    StopFailed(u32),
    /// The session runs, and its trace is open.
    Running(u64),
    /// There is no session because of an error.
    Failed(u32),
}

/// What the system answered to a step: its status, the handle that it gave and the
/// last error code. Each step looks at what it needs.
#[derive(Debug, Clone, Copy, PartialEq, Eq, Structural)]
pub struct Answer {
    pub status: u32,
    pub handle: u64,
    pub last_error: u32,
}

impl SessionPhase {
    /// What comes after the step, given the answer to it.
    pub open spec fn next(self, answer: Answer) -> SessionPhase {
        match self {
            SessionPhase::StopLeftover => SessionPhase::StartTrace,
            SessionPhase::StartTrace => if answer.status == 0 {
                SessionPhase::EnableProvider
            } else {
                SessionPhase::Failed(answer.status)
            },
            SessionPhase::EnableProvider => if answer.status == 0 {
                SessionPhase::OpenTrace
            } else {
                SessionPhase::StopFailed(answer.status)
            },
            SessionPhase::OpenTrace => if is_open(answer.handle) {
                SessionPhase::SpawnReader(answer.handle)
            } else if answer.last_error != 0 {
                SessionPhase::StopFailed(answer.last_error)
            } else {
                SessionPhase::StopFailed(1)
            },
            SessionPhase::SpawnReader(handle) => SessionPhase::Running(handle),
            SessionPhase::StopFailed(error) => SessionPhase::Failed(error),
            SessionPhase::Running(handle) => SessionPhase::Running(handle),
            SessionPhase::Failed(error) => SessionPhase::Failed(error),
        }
    }

    /// Goes on to what comes after the step.
    pub fn advance(&mut self, answer: Answer)
        ensures
            *final(self) == old(self).next(answer),
    {
        *self = match *self {
            SessionPhase::StopLeftover => SessionPhase::StartTrace,
            SessionPhase::StartTrace => if answer.status == 0 {
                SessionPhase::EnableProvider
            } else {
                SessionPhase::Failed(answer.status)
            },
            SessionPhase::EnableProvider => if answer.status == 0 {
                SessionPhase::OpenTrace
            } else {
                SessionPhase::StopFailed(answer.status)
            },
            SessionPhase::OpenTrace => if is_open_trace(answer.handle) {
                SessionPhase::SpawnReader(answer.handle)
            } else if answer.last_error != 0 {
                SessionPhase::StopFailed(answer.last_error)
            } else {
                SessionPhase::StopFailed(1)
            },
            SessionPhase::SpawnReader(handle) => SessionPhase::Running(handle),
            SessionPhase::StopFailed(error) => SessionPhase::Failed(error),
            SessionPhase::Running(handle) => SessionPhase::Running(handle),
            SessionPhase::Failed(error) => SessionPhase::Failed(error),
        };
    }

    /// The phase after the steps with the given answers.
    pub open spec fn after(self, answers: Seq<Answer>) -> SessionPhase
        decreases answers.len(),
    {
        if answers.len() == 0 {
            self
        } else {
            self.after(answers.drop_last()).next(answers.last())
        }
    }

    /// Whether the system has a session after the steps with the given answers,
    /// where it had one before them or not: starting makes one if it succeeds, and
    /// stopping ends it.
    pub open spec fn session_after(self, existed: bool, answers: Seq<Answer>) -> bool
        decreases answers.len(),
    {
        if answers.len() == 0 {
            existed
        } else {
            let before = self.session_after(existed, answers.drop_last());
            match self.after(answers.drop_last()) {
                SessionPhase::StopLeftover | SessionPhase::StopFailed(_) => false,
                SessionPhase::StartTrace => before || answers.last().status == 0,
                _ => before,
            }
        }
    }
}

/// A failed start leaves no session behind and has an error code, and a successful
/// one leaves a session with an open trace, whatever the system answers and whether
/// or not a session was left over.
pub proof fn law_failed_start_leaves_no_session(existed: bool, answers: Seq<Answer>)
    ensures
        ({
            let start = SessionPhase::StopLeftover;
            let exists_now = start.session_after(existed, answers);
            match start.after(answers) {
                SessionPhase::StopLeftover => exists_now == existed,
                SessionPhase::StartTrace => !exists_now,
                SessionPhase::EnableProvider | SessionPhase::OpenTrace => exists_now,
                SessionPhase::SpawnReader(handle) => exists_now && is_open(handle),
                SessionPhase::StopFailed(error) => exists_now && error != 0,
                SessionPhase::Running(handle) => exists_now && is_open(handle),
                SessionPhase::Failed(error) => !exists_now && error != 0,
            }
        }),
    decreases answers.len(),
{
    if answers.len() > 0 {
        law_failed_start_leaves_no_session(existed, answers.drop_last());
    }
}

/// A start is over after five steps at most.
pub proof fn law_start_ends(answers: Seq<Answer>)
    requires
        answers.len() >= 5,
    ensures
        SessionPhase::StopLeftover.after(answers) is Running || SessionPhase::StopLeftover.after(
            answers,
        ) is Failed,
    decreases answers.len(),
{
    if answers.len() > 5 {
        law_start_ends(answers.drop_last());
    } else {
        reveal_with_fuel(SessionPhase::after, 6);
    }
}

/// How far a request for a privilege has come: the step to take next, or the
/// result.
#[derive(Debug, Clone, Copy, PartialEq, Eq, Structural)]
pub enum PrivilegePhase {
    /// Open the token of the process.
    OpenToken,
    /// Look up the privilege.
    Lookup,
    /// Adjust the privileges of the token.
    Adjust,
    /// Close the token; the request was granted or not.
    CloseToken(bool),
    /// The request was granted or not.
    Finished(bool),
}

impl PrivilegePhase {
    /// What comes after the step, which succeeded or not.
    pub open spec fn next(self, ok: bool) -> PrivilegePhase {
        match self {
            PrivilegePhase::OpenToken => if ok {
                PrivilegePhase::Lookup
            } else {
                PrivilegePhase::Finished(false)
            },
            PrivilegePhase::Lookup => if ok {
                PrivilegePhase::Adjust
            } else {
                PrivilegePhase::CloseToken(false)
            },
            PrivilegePhase::Adjust => PrivilegePhase::CloseToken(ok),
            PrivilegePhase::CloseToken(granted) => PrivilegePhase::Finished(granted),
            PrivilegePhase::Finished(granted) => PrivilegePhase::Finished(granted),
        }
    }

    /// Goes on to what comes after the step.
    pub fn advance(&mut self, ok: bool)
        ensures
            *final(self) == old(self).next(ok),
    {
        *self = match *self {
            PrivilegePhase::OpenToken => if ok {
                PrivilegePhase::Lookup
            } else {
                PrivilegePhase::Finished(false)
            },
            PrivilegePhase::Lookup => if ok {
                PrivilegePhase::Adjust
            } else {
                PrivilegePhase::CloseToken(false)
            },
            PrivilegePhase::Adjust => PrivilegePhase::CloseToken(ok),
            PrivilegePhase::CloseToken(granted) => PrivilegePhase::Finished(granted),
            PrivilegePhase::Finished(granted) => PrivilegePhase::Finished(granted),
        };
    }

    /// The phase after the steps that succeeded or not.
    pub open spec fn after(self, answers: Seq<bool>) -> PrivilegePhase
        decreases answers.len(),
    {
        if answers.len() == 0 {
            self
        } else {
            self.after(answers.drop_last()).next(answers.last())
        }
    }

    /// Whether a token is open after the steps that succeeded or not.
    pub open spec fn token_open_after(self, answers: Seq<bool>) -> bool
        decreases answers.len(),
    {
        answers.len() > 0 && match self.after(answers.drop_last()) {
            PrivilegePhase::OpenToken => answers.last(),
            PrivilegePhase::CloseToken(_) => false,
            _ => self.token_open_after(answers.drop_last()),
        }
    }
}

/// What holds in each phase of a request.
proof fn lemma_privilege_phases(answers: Seq<bool>)
    ensures
        ({
            let start = PrivilegePhase::OpenToken;
            let token_open = start.token_open_after(answers);
            match start.after(answers) {
                PrivilegePhase::OpenToken => answers.len() == 0,
                PrivilegePhase::Lookup => token_open && answers.len() == 1 && answers[0],
                PrivilegePhase::Adjust => token_open && answers.len() == 2 && answers[0]
                    && answers[1],
                PrivilegePhase::CloseToken(granted) => {
                    &&& token_open
                    &&& 2 <= answers.len() <= 3
                    &&& answers[0]
                    &&& answers.len() == 2 ==> !granted && !answers[1]
                    &&& answers.len() == 3 ==> answers[1] && granted == answers[2]
                },
                PrivilegePhase::Finished(granted) => {
                    &&& !token_open
                    &&& answers.len() >= 1
                    &&& granted ==> answers.len() >= 4 && answers[0] && answers[1] && answers[2]
                    &&& !granted ==> !answers[0] || (answers.len() >= 2 && !answers[1]) || (
                    answers.len() >= 3 && !answers[2])
                },
            }
        }),
    decreases answers.len(),
{
    if answers.len() > 0 {
        lemma_privilege_phases(answers.drop_last());
    }
}

/// When a request is finished no token is left open, and the privilege was granted
/// just where opening the token, the lookup and the adjustment all succeeded.
pub proof fn law_privilege_request_closes_its_token(answers: Seq<bool>)
    ensures
        PrivilegePhase::OpenToken.after(answers) matches PrivilegePhase::Finished(granted) ==> {
            &&& !PrivilegePhase::OpenToken.token_open_after(answers)
            &&& granted <==> answers.len() >= 3 && answers[0] && answers[1] && answers[2]
        },
{
    lemma_privilege_phases(answers);
}

/// A handle is open where it is neither zero nor the number of an invalid trace.
pub proof fn law_two_traces_are_not_open(handle: u64, r: bool)
    requires
        call_ensures(is_open_trace, (handle,), r),
    ensures
        r <==> handle != 0 && handle != 0xffff_ffff_ffff_ffff,
{
}

/// A session is named after its process.
pub proof fn law_session_is_named_after_its_process(pid: u32, s: String, number: String)
    requires
        call_ensures(session_name, (pid,), s),
        call_ensures(text::decimal_string, (pid as u64,), number),
    ensures
        s@ == "procpulse_net_"@ + number@,
{
}

/// The properties of a session have room for the system's part, the name in UTF-16 and
/// 256 bytes more, and the name stands behind the system's part.
pub proof fn law_properties_have_room_for_the_name(
    header_size: usize,
    name_units: usize,
    p: TraceProperties,
)
    requires
        call_ensures(trace_properties, (header_size, name_units), p),
        header_size + 2 * name_units + 256 <= usize::MAX,
    ensures
        p.total_size == header_size + 2 * name_units + 256,
        p.logger_name_offset == header_size,
        p.client_context == 1,
        p.buffer_kb == 64,
        p.minimum_buffers == 4,
        p.maximum_buffers == 16,
        TRACE_LEVEL == 4,
        TRACE_KEYWORDS == 0x10 + 0x20,
{
}

/// The steps of a start that succeeds: whatever came of stopping a session that was left
/// over, the session is started, its provider enabled, its trace opened and its reader
/// spawned, and the trace that was opened is the one that runs.
pub proof fn law_start_takes_its_steps_in_order(
    a: &mut SessionPhase,
    b: &mut SessionPhase,
    c: &mut SessionPhase,
    d: &mut SessionPhase,
    e: &mut SessionPhase,
    answers: (Answer, Answer, Answer, Answer, Answer),
)
    requires
        call_ensures(SessionPhase::advance, (a, answers.0), ()),
        call_ensures(SessionPhase::advance, (b, answers.1), ()),
        call_ensures(SessionPhase::advance, (c, answers.2), ()),
        call_ensures(SessionPhase::advance, (d, answers.3), ()),
        call_ensures(SessionPhase::advance, (e, answers.4), ()),
        *old(a) == SessionPhase::StopLeftover,
        *old(b) == *final(a) && *old(c) == *final(b) && *old(d) == *final(c) && *old(e)
            == *final(d),
        answers.1.status == 0,
        answers.2.status == 0,
        answers.3.handle != 0 && answers.3.handle != 0xffff_ffff_ffff_ffff,
    ensures
        *final(a) == SessionPhase::StartTrace,
        *final(b) == SessionPhase::EnableProvider,
        *final(c) == SessionPhase::OpenTrace,
        *final(d) == SessionPhase::SpawnReader(answers.3.handle),
        *final(e) == SessionPhase::Running(answers.3.handle),
{
}

/// A step that fails ends the start with its error. Once a session was started it is
/// stopped first. An error that the system does not name is reported as 1.
pub proof fn law_failed_steps_end_the_start(p: &mut SessionPhase, answer: Answer)
    requires
        call_ensures(SessionPhase::advance, (p, answer), ()),
    ensures
        *old(p) == SessionPhase::StartTrace && answer.status != 0 ==> *final(p)
            == SessionPhase::Failed(answer.status),
        *old(p) == SessionPhase::EnableProvider && answer.status != 0 ==> *final(p)
            == SessionPhase::StopFailed(answer.status),
        *old(p) == SessionPhase::OpenTrace && (answer.handle == 0 || answer.handle
            == 0xffff_ffff_ffff_ffff) ==> *final(p) == SessionPhase::StopFailed(
            if answer.last_error == 0 {
                1
            } else {
                answer.last_error
            },
        ),
        *old(p) matches SessionPhase::StopFailed(error) ==> *final(p) == SessionPhase::Failed(error),
        *old(p) is Failed || *old(p) is Running ==> *final(p) == *old(p),
{
}

/// The steps of a request for a privilege: a token that was opened is closed at the end,
/// and the privilege is granted where every step before has succeeded.
pub proof fn law_privilege_is_asked_in_order(p: &mut PrivilegePhase, ok: bool)
    requires
        call_ensures(PrivilegePhase::advance, (p, ok), ()),
    ensures
        *old(p) == PrivilegePhase::OpenToken ==> *final(p) == (if ok {
            PrivilegePhase::Lookup
        } else {
            PrivilegePhase::Finished(false)
        }),
        *old(p) == PrivilegePhase::Lookup ==> *final(p) == (if ok {
            PrivilegePhase::Adjust
        } else {
            PrivilegePhase::CloseToken(false)
        }),
        *old(p) == PrivilegePhase::Adjust ==> *final(p) == PrivilegePhase::CloseToken(ok),
        *old(p) matches PrivilegePhase::CloseToken(granted) ==> *final(p)
            == PrivilegePhase::Finished(granted),
        *old(p) is Finished ==> *final(p) == *old(p),
{
}

} // verus!
