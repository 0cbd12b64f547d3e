//! Commands on the selected process or thread: the target is resolved from
//! the order on display and re-checked against the live system first.

use crate::state::{AppState, ProcessRecord, is_live, live_has};
use vstd::prelude::*;

verus! {

/// Why a command did not take effect.
#[derive(Clone, Copy, Debug, PartialEq, Eq, Structural)]
pub enum CommandError {
    /// The selection resolves to no process or thread, or to one that no
    /// longer exists.
    TargetNotFound,
    /// The operating system refused the operation.
    PermissionDenied,
    /// Any other failure, with the operating system's error number.
    Os(i32),
}

/// A signal that can be sent to a process.
#[derive(Clone, Copy, Debug, PartialEq, Eq, Structural)]
pub enum ProcSignal {
    Terminate,
    ForceKill,
    Suspend,
    Resume,
}

/// The error number for "operation not permitted".
pub const ERRNO_EPERM: i32 = 1;

/// The error number for "no such process".
pub const ERRNO_ESRCH: i32 = 3;

/// Lowest nice value.
pub const NICE_MIN: i32 = -20;

/// Highest nice value.
pub const NICE_MAX: i32 = 19;

pub open spec fn error_of_errno(code: i32) -> CommandError {
    if code == ERRNO_ESRCH {
        CommandError::TargetNotFound
    } else if code == ERRNO_EPERM {
        CommandError::PermissionDenied
    } else {
        CommandError::Os(code)
    }
}

/// The command error for an operating-system error number.
pub fn error_from_errno(code: i32) -> (r: CommandError)
    ensures
        r == error_of_errno(code),
{
    if code == ERRNO_ESRCH {
        CommandError::TargetNotFound
    } else if code == ERRNO_EPERM {
        CommandError::PermissionDenied
    } else {
        CommandError::Os(code)
    }
}

/// Terminating signals mark their target as killed once delivered.
pub open spec fn is_terminating(signal: ProcSignal) -> bool {
    signal == ProcSignal::Terminate || signal == ProcSignal::ForceKill
}

/// A pid that can name exactly one process to the signal call.
pub open spec fn deliverable(pid: u32) -> bool {
    1 <= pid <= i32::MAX
}

/// Relies on nix::sys::signal::kill: with a positive pid it sends `signal`
/// to that one process, and on failure reports the OS error number (the
/// `Errno` value, whose representation is that number).
#[verifier::external_body]
fn deliver_signal(pid: u32, signal: ProcSignal) -> (r: Result<(), i32>)
    requires
        deliverable(pid),
{
    let sig = match signal {
        ProcSignal::Terminate => nix::sys::signal::Signal::SIGTERM,
        ProcSignal::ForceKill => nix::sys::signal::Signal::SIGKILL,
        ProcSignal::Suspend => nix::sys::signal::Signal::SIGSTOP,
        ProcSignal::Resume => nix::sys::signal::Signal::SIGCONT,
    };
    match nix::sys::signal::kill(nix::unistd::Pid::from_raw(pid as i32), sig) {
        Ok(()) => Ok(()),
        Err(e) => Err(e as i32),
    }
}

/// `next` and `r` are what recording `outcome` of sending `signal` to `pid`
/// gives from `s`: on success a terminating signal adds `pid` to the killed
/// pids; on failure the state is unchanged and the error number is mapped.
pub open spec fn outcome_step(
    s: AppState,
    pid: u32,
    signal: ProcSignal,
    outcome: Result<(), i32>,
    next: AppState,
    r: Result<(), CommandError>,
) -> bool {
    match outcome {
        Ok(()) => {
            &&& r is Ok
            &&& next == (AppState { killed_pids: next.killed_pids, ..s })
            &&& next.killed_pids@ == if is_terminating(signal) {
                s.killed_pids@.push(pid)
            } else {
                s.killed_pids@
            }
        },
        Err(code) => r == Err::<(), CommandError>(error_of_errno(code)) && next == s,
    }
}

/// Records the outcome of sending `signal` to `pid`.
pub fn record_signal_outcome(
    state: &mut AppState,
    pid: u32,
    signal: ProcSignal,
    outcome: Result<(), i32>,
) -> (r: Result<(), CommandError>)
    ensures
        outcome_step(*old(state), pid, signal, outcome, *final(state), r),
{
    match outcome {
        Ok(()) => {
            match signal {
                ProcSignal::Terminate | ProcSignal::ForceKill => state.killed_pids.push(pid),
                _ => {},
            }
            Ok(())
        },
        Err(code) => Err(error_from_errno(code)),
    }
}

/// Sends `signal` to `pid` if it is a deliverable pid of a process in
/// `live`; otherwise fails with `TargetNotFound` and sends nothing.
pub fn signal_pid(state: &mut AppState, pid: u32, live: &Vec<ProcessRecord>, signal: ProcSignal) -> (r:
    Result<(), CommandError>)
    ensures
        !is_live(live@, pid) || !deliverable(pid) ==> r == Err::<(), CommandError>(
            CommandError::TargetNotFound,
        ) && *final(state) == *old(state),
        is_live(live@, pid) && deliverable(pid) ==> exists|outcome: Result<(), i32>|
            outcome_step(*old(state), pid, signal, outcome, *final(state), r),
{
    if pid == 0 || pid > i32::MAX as u32 || !live_has(live, pid) {
        return Err(CommandError::TargetNotFound);
    }
    let outcome = deliver_signal(pid, signal);
    record_signal_outcome(state, pid, signal, outcome)
}

/// The pid at the selection of the process order on display, if any.
pub open spec fn resolved_pid(s: AppState) -> Option<u32> {
    match s.cached_pids {
        Some(pids) => if s.proc_view.offset + s.proc_view.selected < pids@.len() {
            Some(pids@[s.proc_view.offset + s.proc_view.selected])
        } else {
            None
        },
        None => None,
    }
}

/// Sends `signal` to the selected process of the order on display, after
/// checking that it is still in `live`. Without such a process, the result
/// is `TargetNotFound` and nothing changes; otherwise the outcome of the
/// signal call decides, as `outcome_step` says.
pub fn send_signal_to_selected_process(
    state: &mut AppState,
    live: &Vec<ProcessRecord>,
    signal: ProcSignal,
) -> (r: Result<(), CommandError>)
    ensures
        match resolved_pid(*old(state)) {
            None => r == Err::<(), CommandError>(CommandError::TargetNotFound) && *final(state) == *old(
                state,
            ),
            Some(pid) => if is_live(live@, pid) && deliverable(pid) {
                exists|outcome: Result<(), i32>|
                    outcome_step(*old(state), pid, signal, outcome, *final(state), r)
            } else {
                r == Err::<(), CommandError>(CommandError::TargetNotFound) && *final(state) == *old(
                    state,
                )
            },
        },
{
    let target = match &state.cached_pids {
        Some(pids) => {
            let offset = state.proc_view.offset;
            let selected = state.proc_view.selected;
            if offset < pids.len() && selected < pids.len() - offset {
                Some(pids[offset + selected])
            } else {
                None
            }
        },
        None => None,
    };
    match target {
        Some(pid) => signal_pid(state, pid, live, signal),
        None => Err(CommandError::TargetNotFound),
    }
}

/// The process a priority change applies to: the selected process of the
/// order on display, when it is still in `live` and can be named by its
/// pid; otherwise `TargetNotFound`.
pub fn priority_target(state: &AppState, live: &Vec<ProcessRecord>) -> (r: Result<u32, CommandError>)
    ensures
        match resolved_pid(*state) {
            None => r == Err::<u32, CommandError>(CommandError::TargetNotFound),
            Some(pid) => if is_live(live@, pid) && deliverable(pid) {
                r == Ok::<u32, CommandError>(pid)
            } else {
                r == Err::<u32, CommandError>(CommandError::TargetNotFound)
            },
        },
{
    if let Some(pids) = &state.cached_pids {
        let offset = state.proc_view.offset;
        let selected = state.proc_view.selected;
        if offset < pids.len() && selected < pids.len() - offset {
            let pid = pids[offset + selected];
            if pid != 0 && pid <= i32::MAX as u32 && live_has(live, pid) {
                return Ok(pid);
            }
        }
    }
    Err(CommandError::TargetNotFound)
}

/// The thread at the selection of the thread rows on display, if any.
pub open spec fn resolved_thread(s: AppState) -> Option<u32> {
    match s.cached_threads {
        Some(rows) => {
            let idx = s.thread_view.offset + s.thread_view.selected;
            if idx < s.latest_thread_count && idx < rows@.len() {
                Some(rows@[idx].tid)
            } else {
                None
            }
        },
        None => None,
    }
}

/// The (process, thread) pair a thread signal must be addressed to: the
/// focused process and the selected thread of the rows on display.
pub fn thread_signal_target(state: &AppState) -> (r: Result<(u32, u32), CommandError>)
    ensures
        match resolved_thread(*state) {
            None => r == Err::<(u32, u32), CommandError>(CommandError::TargetNotFound),
            Some(tid) => r == Ok::<(u32, u32), CommandError>((state.thread_process_pid, tid)),
        },
{
    if let Some(rows) = &state.cached_threads {
        let offset = state.thread_view.offset;
        let selected = state.thread_view.selected;
        if offset < rows.len() && selected < rows.len() - offset && offset + selected
            < state.latest_thread_count {
            return Ok((state.thread_process_pid, rows[offset + selected].tid));
        }
    }
    Err(CommandError::TargetNotFound)
}

/// The result of a thread signal call that returned `ret`, with the error
/// number `errno` it left when it failed.
pub fn thread_signal_outcome(ret: i64, errno: i32) -> (r: Result<(), CommandError>)
    ensures
        ret == 0 ==> r is Ok,
        ret != 0 ==> r == Err::<(), CommandError>(error_of_errno(errno)),
{
    if ret == 0 {
        Ok(())
    } else {
        Err(error_from_errno(errno))
    }
}

/// `v` limited to the legal nice range.
pub open spec fn clamp_nice(v: int) -> i32 {
    if v < NICE_MIN {
        NICE_MIN
    } else if v > NICE_MAX {
        NICE_MAX
    } else {
        v as i32
    }
}

/// The nice value one step from the current one (up when `increase`, which
/// lowers the scheduling favour), limited to the legal range.
pub fn stepped_nice(current: i32, increase: bool) -> (r: i32)
    ensures
        r == clamp_nice(if increase { current + 1 } else { current - 1 }),
{
    let v: i64 = if increase { current as i64 + 1 } else { current as i64 - 1 };
    if v < NICE_MIN as i64 {
        NICE_MIN
    } else if v > NICE_MAX as i64 {
        NICE_MAX
    } else {
        v as i32
    }
}

} // verus!
