//! The end of a stdio upstream's child process: how its exit is reaped (with
//! a kill when it overstays), and whether the termination is routine.

use vstd::prelude::*;
use crate::text::{concat_parts, concat_views, decimal, u64_to_decimal_string};

verus! {

broadcast use vstd::string::group_string_axioms;

/// How long a child gets to exit on its own before it is killed.
pub const CHILD_EXIT_WAIT_MS: u64 = 3000;

/// What the operating system reported of a finished child.
#[derive(Clone, Copy)]
pub struct ExitStatusInfo {
    pub code: Option<i32>,
    pub signal: Option<i32>,
    pub success: bool,
}

/// How the child's exit was observed.
pub struct ChildExit {
    pub status: Option<ExitStatusInfo>,
    pub wait_error: Option<String>,
    pub killed_after_timeout: bool,
}

/// How the bounded first wait for the child ended.
pub enum FirstWait {
    Exited(ExitStatusInfo),
    WaitFailed(String),
    TimedOut,
}

/// What to do after the first wait.
pub enum WaitDecision {
    /// The exit is known.
    Done(ChildExit),
    /// Kill the child, wait for it again, and report with [`exit_after_kill`].
    KillAndReap,
}

pub open spec fn timeout_message() -> Seq<char> {
    "child did not exit within "@ + decimal(CHILD_EXIT_WAIT_MS as nat) + "ms"@
}

pub open spec fn error_is(o: Option<String>, m: Seq<char>) -> bool {
    match o {
        Some(w) => w@ == m,
        None => false,
    }
}

/// Decide from the first wait: an exit or a wait error is final; a timeout
/// leads to a kill when `kill_after_timeout`, and is reported as an error
/// otherwise.
pub fn decide_after_wait(first: FirstWait, kill_after_timeout: bool) -> (d: WaitDecision)
    ensures
        match first {
            FirstWait::Exited(st) => d matches WaitDecision::Done(e) && e.status == Some(st)
                && e.wait_error.is_none() && !e.killed_after_timeout,
            FirstWait::WaitFailed(m) => d matches WaitDecision::Done(e) && e.status.is_none()
                && error_is(e.wait_error, m@) && !e.killed_after_timeout,
            FirstWait::TimedOut => if kill_after_timeout {
                d is KillAndReap
            } else {
                d matches WaitDecision::Done(e) && e.status.is_none() && error_is(
                    e.wait_error,
                    timeout_message(),
                ) && !e.killed_after_timeout
            },
        },
{
    match first {
        FirstWait::Exited(st) => WaitDecision::Done(
            ChildExit { status: Some(st), wait_error: None, killed_after_timeout: false },
        ),
        FirstWait::WaitFailed(m) => WaitDecision::Done(
            ChildExit { status: None, wait_error: Some(m), killed_after_timeout: false },
        ),
        FirstWait::TimedOut => {
            if kill_after_timeout {
                WaitDecision::KillAndReap
            } else {
                let ms = u64_to_decimal_string(CHILD_EXIT_WAIT_MS);
                let m = concat_parts(vec!["child did not exit within ", ms.as_str(), "ms"]);
                proof {
                    reveal_strlit("child did not exit within ");
                    reveal_strlit("ms");
                    reveal_with_fuel(concat_views, 4);
                }
                WaitDecision::Done(
                    ChildExit { status: None, wait_error: Some(m), killed_after_timeout: false },
                )
            }
        },
    }
}

/// The exit of a child killed after overstaying: the kill's error, if any,
/// and whatever the second wait reported.
pub fn exit_after_kill(kill_error: Option<String>, status: Option<ExitStatusInfo>) -> (e: ChildExit)
    ensures
        e.status == status,
        e.wait_error == kill_error,
        e.killed_after_timeout,
{
    ChildExit { status, wait_error: kill_error, killed_after_timeout: true }
}

/// A termination is routine when it was expected, the child exited
/// successfully, and no request was cut off by it; anything else is logged as
/// a warning with the affected requests.
pub fn termination_is_routine(expected: bool, exit: &ChildExit, invalidated_count: usize) -> (b: bool)
    ensures
        b == (expected && (exit.status matches Some(st) && st.success) && invalidated_count == 0),
{
    let success = match exit.status {
        Some(st) => st.success,
        None => false,
    };
    expected && success && invalidated_count == 0
}

/// The exit code of a reaped child, if it exited with one.
pub fn exit_code(status: Option<ExitStatusInfo>) -> (c: Option<i32>)
    ensures
        c == (match status {
            Some(st) => st.code,
            None => None,
        }),
{
    match status {
        Some(st) => st.code,
        None => None,
    }
}

/// The signal that ended a reaped child, if one did.
pub fn exit_signal(status: Option<ExitStatusInfo>) -> (s: Option<i32>)
    ensures
        s == (match status {
            Some(st) => st.signal,
            None => None,
        }),
{
    match status {
        Some(st) => st.signal,
        None => None,
    }
}

/// Where a stdio transport's child stands.
pub struct ChildSlot {
    pub present: bool,
}

impl ChildSlot {
    /// The transport is ending (end of stream, close or drop): the first end
    /// reaps and reports the child, every later one finds it gone and does
    /// nothing.
    pub fn finish(&mut self) -> (reap: bool)
        ensures
            reap == old(self).present,
            !final(self).present,
    {
        let reap = self.present;
        self.present = false;
        reap
    }
}

} // verus!
