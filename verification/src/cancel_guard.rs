//! Cancel-on-drop for an in-flight `tools/call`: the upstream is told to stop
//! exactly when the caller walks away before the response arrived, and the
//! response the upstream sent is classified for the two call flavours.

use vstd::prelude::*;

verus! {

/// Reason sent upstream with the cancellation of an abandoned call.
pub const CANCEL_REASON: &'static str = "downstream caller cancelled the request";

/// The guard held over a response wait. Armed from the moment the request is
/// on the wire until its response arrives.
pub struct CancelUpstreamOnDrop {
    pub armed: bool,
    pub upstream: String,
    pub request_id: u64,
}

/// What dropping the guard does.
#[derive(Clone, Copy, PartialEq, Eq, Structural)]
pub enum DropAction {
    /// Nothing: the call completed, or no runtime is left to send from.
    Nothing,
    /// Send `notifications/cancelled` for the request, with [`CANCEL_REASON`].
    NotifyCancelled,
}

/// What dropping a guard in the given arming state does.
pub open spec fn drop_action(armed: bool, runtime_available: bool) -> DropAction {
    if armed && runtime_available {
        DropAction::NotifyCancelled
    } else {
        DropAction::Nothing
    }
}

impl CancelUpstreamOnDrop {
    /// A guard for a request that has just been sent.
    pub fn armed(upstream: &str, request_id: u64) -> (g: Self)
        ensures
            g.armed,
            g.upstream@ == upstream@,
            g.request_id == request_id,
    {
        CancelUpstreamOnDrop { armed: true, upstream: upstream.to_string(), request_id }
    }

    /// The response arrived (an error reply included): nothing is left to cancel.
    pub fn disarm(&mut self)
        ensures
            !final(self).armed,
            final(self).upstream == old(self).upstream,
            final(self).request_id == old(self).request_id,
    {
        self.armed = false;
    }

    /// The guard is dropped: notify the upstream only when still armed and a
    /// runtime is there to carry the notification. Dropping twice never
    /// notifies twice.
    pub fn on_drop(&mut self, runtime_available: bool) -> (a: DropAction)
        ensures
            a == drop_action(old(self).armed, runtime_available),
            !final(self).armed,
            final(self).request_id == old(self).request_id,
    {
        if !self.armed {
            return DropAction::Nothing;
        }
        self.armed = false;
        if runtime_available {
            DropAction::NotifyCancelled
        } else {
            DropAction::Nothing
        }
    }
}

/// Law: once the response arrived (the guard disarmed), dropping the guard
/// sends nothing, and a guard that was dropped once sends nothing if dropped
/// again: the upstream is told to cancel at most once, and never after it
/// answered.
pub proof fn law_completed_call_is_never_cancelled(runtime_available: bool)
    ensures
        drop_action(false, runtime_available) == DropAction::Nothing,
        forall|armed: bool, r1: bool, r2: bool|
            #![trigger drop_action(armed, r1), drop_action(false, r2)]
            drop_action(armed, r1) == DropAction::NotifyCancelled ==> drop_action(false, r2)
                == DropAction::Nothing,
{
}

/// How delivering the cancellation ended.
#[derive(Clone, Copy, PartialEq, Eq, Structural)]
pub enum CancelDelivery {
    Sent,
    Failed,
    TimedOut,
}

impl CancelDelivery {
    /// The outcome as the log records it.
    pub fn outcome(self) -> (s: &'static str)
        ensures
            s@ == (match self {
                CancelDelivery::Sent => "sent"@,
                CancelDelivery::Failed => "failed"@,
                CancelDelivery::TimedOut => "timeout"@,
            }),
    {
        proof {
            reveal_strlit("sent");
            reveal_strlit("failed");
            reveal_strlit("timeout");
        }
        match self {
            CancelDelivery::Sent => "sent",
            CancelDelivery::Failed => "failed",
            CancelDelivery::TimedOut => "timeout",
        }
    }

    /// Only a delivered cancellation is routine; the others are warnings.
    pub fn is_warning(self) -> (b: bool)
        ensures
            b == !(self == CancelDelivery::Sent),
    {
        !matches!(self, CancelDelivery::Sent)
    }
}

/// The kinds of result a server can answer a request with.
#[derive(Clone, Copy, PartialEq, Eq, Structural)]
pub enum ServerResultKind {
    CallToolResult,
    InputRequiredResult,
    CreateTaskResult,
    Other,
}

/// The kinds of answer a single-shot tool call hands back.
#[derive(Clone, Copy, PartialEq, Eq, Structural)]
pub enum CallToolResponseKind {
    Complete,
    InputRequired,
    Task,
}

/// The answer to a plain tool call: only a tool result is one; anything else
/// is an unexpected response (`Err`).
pub fn classify_call_tool(kind: ServerResultKind) -> (r: Result<(), ()>)
    ensures
        r is Ok <==> kind == ServerResultKind::CallToolResult,
{
    match kind {
        ServerResultKind::CallToolResult => Ok(()),
        _ => Err(()),
    }
}

/// The answer to a single-shot tool call: a tool result, a request for more
/// input and a created task are kept for the caller to drive; anything else
/// is an unexpected response (`Err`).
pub fn classify_call_tool_once(kind: ServerResultKind) -> (r: Result<CallToolResponseKind, ()>)
    ensures
        r == (match kind {
            ServerResultKind::CallToolResult => Ok(CallToolResponseKind::Complete),
            ServerResultKind::InputRequiredResult => Ok(CallToolResponseKind::InputRequired),
            ServerResultKind::CreateTaskResult => Ok(CallToolResponseKind::Task),
            ServerResultKind::Other => Err::<CallToolResponseKind, ()>(()),
        }),
{
    match kind {
        ServerResultKind::CallToolResult => Ok(CallToolResponseKind::Complete),
        ServerResultKind::InputRequiredResult => Ok(CallToolResponseKind::InputRequired),
        ServerResultKind::CreateTaskResult => Ok(CallToolResponseKind::Task),
        ServerResultKind::Other => Err(()),
    }
}

} // verus!
