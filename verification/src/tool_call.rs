//! Tool-call policy around the upstream RPC: the exposure gate on
//! subject-scoped calls, the refusal a hidden tool gets, and the one-shot
//! recovery from a routing-header mismatch with its per-upstream counters.

use vstd::prelude::*;
use crate::kv::{kv_map, kv_get, kv_insert};
use crate::text::{concat_parts, concat_views};
use crate::tool_catalog::{
    ToolDescriptor, UpstreamConfig, UpstreamTool, config_tool_policy, pview_matches,
    resolve_request_exposure_policy,
};

verus! {

broadcast use vstd::string::group_string_axioms;

/// rmcp's `ErrorCode::HEADER_MISMATCH`: the server refused the request before
/// dispatch because its routing headers were stale or missing. The contract
/// states the value the constant has in the rmcp source.
#[verifier::external_body]
pub(crate) fn header_mismatch_code() -> (c: i32)
    ensures
        c == -32020,
{
    rmcp::model::ErrorCode::HEADER_MISMATCH.0
}

/// rmcp's `ErrorCode::METHOD_NOT_FOUND`, the JSON-RPC code for an unknown
/// method. The contract states the value the constant has in the rmcp source.
#[verifier::external_body]
pub(crate) fn method_not_found_code() -> (c: i32)
    ensures
        c == -32601,
{
    rmcp::model::ErrorCode::METHOD_NOT_FOUND.0
}

/// Whether a subject-scoped call may reach `tool_name`: the upstream's tool
/// allowlist, compiled failing closed, must match it.
pub fn subject_scoped_tool_is_exposed(config: &UpstreamConfig, tool_name: &str) -> (b: bool)
    ensures
        b == pview_matches(config_tool_policy(*config), tool_name@),
{
    let policy = resolve_request_exposure_policy(config);
    proof {
        crate::tool_catalog::lemma_matches_pview(policy, tool_name@);
    }
    policy.matches(tool_name)
}

pub open spec fn hidden_tool_message(upstream: Seq<char>, tool: Seq<char>) -> Seq<char> {
    "upstream `"@ + upstream + "` does not expose tool `"@ + tool + "`"@
}

/// The refusal for a tool the exposure policy hides: worded as for a tool the
/// upstream never advertised.
pub fn hidden_tool_error(config: &UpstreamConfig, tool_name: &str) -> (s: String)
    ensures
        s@ == hidden_tool_message(config.name@, tool_name@),
{
    let m = concat_parts(
        vec!["upstream `", config.name.as_str(), "` does not expose tool `", tool_name, "`"],
    );
    proof {
        reveal_strlit("upstream `");
        reveal_strlit("` does not expose tool `");
        reveal_strlit("`");
        reveal_with_fuel(concat_views, 6);
    }
    m
}

/// A JSON-RPC error reply: its code and message.
pub struct McpErrorReply {
    pub code: i32,
    pub message: String,
}

/// [`hidden_tool_error`] as a classified reply: `METHOD_NOT_FOUND`, a
/// permanent refusal that no retry can turn around.
pub fn hidden_tool_call_error(config: &UpstreamConfig, tool_name: &str) -> (e: McpErrorReply)
    ensures
        e.code == -32601,
        e.message@ == hidden_tool_message(config.name@, tool_name@),
{
    McpErrorReply { code: method_not_found_code(), message: hidden_tool_error(config, tool_name) }
}

/// Whether a subject-scoped tool call may proceed: `None` when it may, else
/// the reply the caller receives instead.
pub fn subject_scoped_call_refusal(config: &UpstreamConfig, tool_name: &str) -> (r: Option<
    McpErrorReply,
>)
    ensures
        r.is_none() == pview_matches(config_tool_policy(*config), tool_name@),
        r matches Some(e) ==> e.code == -32601 && e.message@ == hidden_tool_message(
            config.name@,
            tool_name@,
        ),
{
    if subject_scoped_tool_is_exposed(config, tool_name) {
        None
    } else {
        Some(hidden_tool_call_error(config, tool_name))
    }
}

/// Whether a call failed with the dedicated header-mismatch code. Only the
/// code decides; the message is not part of the contract. `mcp_error_code` is
/// the JSON-RPC code when the failure was an MCP error reply, `None` for any
/// other failure.
pub fn is_tool_header_mismatch(mcp_error_code: Option<i32>) -> (b: bool)
    ensures
        b == (mcp_error_code == Some(-32020i32)),
{
    match mcp_error_code {
        Some(code) => code == header_mismatch_code(),
        None => false,
    }
}

/// How often header-mismatch recovery ran for one upstream.
#[derive(Clone, Copy)]
pub struct HeaderRecoveryCounts {
    pub mismatches: u64,
    pub schema_refreshes: u64,
    pub retry_successes: u64,
    pub retry_failures: u64,
}

pub open spec fn zero_counts() -> HeaderRecoveryCounts {
    HeaderRecoveryCounts { mismatches: 0, schema_refreshes: 0, retry_successes: 0, retry_failures: 0 }
}

pub open spec fn bump(n: u64) -> u64 {
    if n == u64::MAX { n } else { (n + 1) as u64 }
}

/// Per-upstream recovery counters.
pub struct HeaderRecoveryStats {
    per_upstream: Vec<(String, HeaderRecoveryCounts)>,
}

impl View for HeaderRecoveryStats {
    type V = Map<Seq<char>, HeaderRecoveryCounts>;

    closed spec fn view(&self) -> Map<Seq<char>, HeaderRecoveryCounts> {
        kv_map(self.per_upstream@)
    }
}

pub open spec fn counts_in(m: Map<Seq<char>, HeaderRecoveryCounts>, upstream: Seq<char>) -> HeaderRecoveryCounts {
    if m.dom().contains(upstream) { m[upstream] } else { zero_counts() }
}

fn saturating_bump(n: u64) -> (r: u64)
    ensures
        r == bump(n),
{
    if n == u64::MAX { n } else { n + 1 }
}

impl HeaderRecoveryStats {
    pub fn new() -> (s: Self)
        ensures
            s@ == Map::<Seq<char>, HeaderRecoveryCounts>::empty(),
    {
        HeaderRecoveryStats { per_upstream: Vec::new() }
    }

    /// The counters of `upstream`, all zero before its first recovery.
    pub fn counts(&self, upstream: &str) -> (c: HeaderRecoveryCounts)
        ensures
            c == counts_in(self@, upstream@),
    {
        match kv_get(&self.per_upstream, upstream) {
            Some(c) => *c,
            None => HeaderRecoveryCounts {
                mismatches: 0,
                schema_refreshes: 0,
                retry_successes: 0,
                retry_failures: 0,
            },
        }
    }

    fn store(&mut self, upstream: &str, c: HeaderRecoveryCounts)
        ensures
            final(self)@ == old(self)@.insert(upstream@, c),
    {
        kv_insert(&mut self.per_upstream, upstream.to_string(), c);
    }

    /// Count a detected header mismatch; the new count comes back.
    pub fn record_header_mismatch(&mut self, upstream: &str) -> (n: u64)
        ensures
            n == bump(counts_in(old(self)@, upstream@).mismatches),
            final(self)@ == old(self)@.insert(
                upstream@,
                HeaderRecoveryCounts { mismatches: n, ..counts_in(old(self)@, upstream@) },
            ),
    {
        let mut c = self.counts(upstream);
        c.mismatches = saturating_bump(c.mismatches);
        self.store(upstream, c);
        c.mismatches
    }

    /// Count a schema refresh started after a mismatch; the new count comes back.
    pub fn record_header_schema_refresh(&mut self, upstream: &str) -> (n: u64)
        ensures
            n == bump(counts_in(old(self)@, upstream@).schema_refreshes),
            final(self)@ == old(self)@.insert(
                upstream@,
                HeaderRecoveryCounts { schema_refreshes: n, ..counts_in(old(self)@, upstream@) },
            ),
    {
        let mut c = self.counts(upstream);
        c.schema_refreshes = saturating_bump(c.schema_refreshes);
        self.store(upstream, c);
        c.schema_refreshes
    }

    /// Count the outcome of the retry that follows a refresh: a success or a
    /// failure, whichever it was; the new count of that kind comes back.
    pub fn record_header_retry(&mut self, upstream: &str, succeeded: bool) -> (n: u64)
        ensures
            ({
                let c = counts_in(old(self)@, upstream@);
                if succeeded {
                    &&& n == bump(c.retry_successes)
                    &&& final(self)@ == old(self)@.insert(
                        upstream@,
                        HeaderRecoveryCounts { retry_successes: n, ..c },
                    )
                } else {
                    &&& n == bump(c.retry_failures)
                    &&& final(self)@ == old(self)@.insert(
                        upstream@,
                        HeaderRecoveryCounts { retry_failures: n, ..c },
                    )
                }
            }),
    {
        let mut c = self.counts(upstream);
        if succeeded {
            c.retry_successes = saturating_bump(c.retry_successes);
            self.store(upstream, c);
            c.retry_successes
        } else {
            c.retry_failures = saturating_bump(c.retry_failures);
            self.store(upstream, c);
            c.retry_failures
        }
    }
}

/// Where a tool call stands in its header-mismatch recovery.
#[derive(Clone, Copy, PartialEq, Eq, Structural)]
pub enum HeaderRecoveryPhase {
    AwaitingCall,
    AwaitingRefresh,
    AwaitingRetry,
    Finished,
}

/// How a tool-call RPC came back.
#[derive(Clone, Copy)]
pub enum CallOutcome {
    Succeeded,
    /// `mcp_error_code` is the JSON-RPC code when the upstream answered with
    /// an MCP error, `None` for a transport failure.
    Failed { mcp_error_code: Option<i32> },
}

/// What the caller reports back after performing the last action.
#[derive(Clone, Copy)]
pub enum HeaderRecoveryEvent {
    CallReturned(CallOutcome),
    RefreshReturned { ok: bool },
}

/// What the caller does next.
#[derive(Clone, Copy, PartialEq, Eq, Structural)]
pub enum HeaderRecoveryAction {
    /// Hand the result of the call just made to the caller.
    ReturnCallResult,
    /// List the upstream's tools so the client relearns its header schema.
    RefreshSchemas,
    /// Call the tool again with the same parameters.
    RetryCall,
    /// Hand the refresh failure to the caller.
    ReturnRefreshError,
}

pub open spec fn outcome_is_mismatch(o: CallOutcome) -> bool {
    o matches CallOutcome::Failed { mcp_error_code } && mcp_error_code == Some(-32020i32)
}

/// The transition of the recovery: next phase and action.
pub open spec fn recovery_step(phase: HeaderRecoveryPhase, e: HeaderRecoveryEvent) -> (
    HeaderRecoveryPhase,
    HeaderRecoveryAction,
) {
    match (phase, e) {
        (HeaderRecoveryPhase::AwaitingCall, HeaderRecoveryEvent::CallReturned(o)) => if outcome_is_mismatch(o) {
            (HeaderRecoveryPhase::AwaitingRefresh, HeaderRecoveryAction::RefreshSchemas)
        } else {
            (HeaderRecoveryPhase::Finished, HeaderRecoveryAction::ReturnCallResult)
        },
        (HeaderRecoveryPhase::AwaitingRefresh, HeaderRecoveryEvent::RefreshReturned { ok }) => if ok {
            (HeaderRecoveryPhase::AwaitingRetry, HeaderRecoveryAction::RetryCall)
        } else {
            (HeaderRecoveryPhase::Finished, HeaderRecoveryAction::ReturnRefreshError)
        },
        _ => (HeaderRecoveryPhase::Finished, HeaderRecoveryAction::ReturnCallResult),
    }
}

/// One tool call with at most one header-mismatch recovery: the first call,
/// then on a mismatch a schema refresh and a single retry.
pub struct HeaderRecovery {
    pub phase: HeaderRecoveryPhase,
    pub calls_issued: u8,
}

impl HeaderRecovery {
    /// The calls made so far agree with the phase.
    pub open spec fn wf(&self) -> bool {
        match self.phase {
            HeaderRecoveryPhase::AwaitingCall => self.calls_issued == 1,
            HeaderRecoveryPhase::AwaitingRefresh => self.calls_issued == 1,
            HeaderRecoveryPhase::AwaitingRetry => self.calls_issued == 2,
            HeaderRecoveryPhase::Finished => 1 <= self.calls_issued <= 2,
        }
    }

    /// Whether `e` answers the action this recovery is waiting on.
    pub open spec fn expects(&self, e: HeaderRecoveryEvent) -> bool {
        match (self.phase, e) {
            (HeaderRecoveryPhase::AwaitingCall, HeaderRecoveryEvent::CallReturned(_)) => true,
            (HeaderRecoveryPhase::AwaitingRefresh, HeaderRecoveryEvent::RefreshReturned { .. }) => true,
            (HeaderRecoveryPhase::AwaitingRetry, HeaderRecoveryEvent::CallReturned(_)) => true,
            _ => false,
        }
    }

    /// The recovery of a call that has just been issued.
    pub fn start() -> (r: Self)
        ensures
            r.phase == HeaderRecoveryPhase::AwaitingCall,
            r.calls_issued == 1,
            r.wf(),
    {
        HeaderRecovery { phase: HeaderRecoveryPhase::AwaitingCall, calls_issued: 1 }
    }

    /// Take in what the last action produced, count it against `upstream`,
    /// and say what to do next.
    pub fn step(&mut self, stats: &mut HeaderRecoveryStats, upstream: &str, e: HeaderRecoveryEvent) -> (a:
        HeaderRecoveryAction)
        requires
            old(self).wf(),
            old(self).expects(e),
        ensures
            (final(self).phase, a) == recovery_step(old(self).phase, e),
            final(self).wf(),
            final(self).calls_issued == old(self).calls_issued + (if a == HeaderRecoveryAction::RetryCall {
                1int
            } else {
                0int
            }),
            ({
                let c = counts_in(old(stats)@, upstream@);
                match (old(self).phase, e) {
                    (HeaderRecoveryPhase::AwaitingCall, HeaderRecoveryEvent::CallReturned(o)) => if outcome_is_mismatch(o) {
                        final(stats)@ == old(stats)@.insert(
                            upstream@,
                            HeaderRecoveryCounts {
                                mismatches: bump(c.mismatches),
                                schema_refreshes: bump(c.schema_refreshes),
                                ..c
                            },
                        )
                    } else {
                        final(stats)@ == old(stats)@
                    },
                    (HeaderRecoveryPhase::AwaitingRetry, HeaderRecoveryEvent::CallReturned(o)) => if o is Succeeded {
                        final(stats)@ == old(stats)@.insert(
                            upstream@,
                            HeaderRecoveryCounts { retry_successes: bump(c.retry_successes), ..c },
                        )
                    } else {
                        final(stats)@ == old(stats)@.insert(
                            upstream@,
                            HeaderRecoveryCounts { retry_failures: bump(c.retry_failures), ..c },
                        )
                    },
                    _ => final(stats)@ == old(stats)@,
                }
            }),
    {
        match (self.phase, e) {
            (HeaderRecoveryPhase::AwaitingCall, HeaderRecoveryEvent::CallReturned(o)) => {
                let mismatch = match o {
                    CallOutcome::Succeeded => false,
                    CallOutcome::Failed { mcp_error_code } => is_tool_header_mismatch(mcp_error_code),
                };
                if mismatch {
                    let ghost s0 = stats@;
                    stats.record_header_mismatch(upstream);
                    let ghost s1 = stats@;
                    stats.record_header_schema_refresh(upstream);
                    proof {
                        assert(s1.dom().contains(upstream@));
                        assert(stats@ =~= s0.insert(
                            upstream@,
                            HeaderRecoveryCounts {
                                mismatches: bump(counts_in(s0, upstream@).mismatches),
                                schema_refreshes: bump(counts_in(s0, upstream@).schema_refreshes),
                                ..counts_in(s0, upstream@)
                            },
                        ));
                    }
                    self.phase = HeaderRecoveryPhase::AwaitingRefresh;
                    HeaderRecoveryAction::RefreshSchemas
                } else {
                    self.phase = HeaderRecoveryPhase::Finished;
                    HeaderRecoveryAction::ReturnCallResult
                }
            },
            (HeaderRecoveryPhase::AwaitingRefresh, HeaderRecoveryEvent::RefreshReturned { ok }) => {
                if ok {
                    self.phase = HeaderRecoveryPhase::AwaitingRetry;
                    self.calls_issued = 2;
                    HeaderRecoveryAction::RetryCall
                } else {
                    self.phase = HeaderRecoveryPhase::Finished;
                    HeaderRecoveryAction::ReturnRefreshError
                }
            },
            (_, HeaderRecoveryEvent::CallReturned(o)) => {
                let succeeded = match o {
                    CallOutcome::Succeeded => true,
                    CallOutcome::Failed { .. } => false,
                };
                stats.record_header_retry(upstream, succeeded);
                self.phase = HeaderRecoveryPhase::Finished;
                HeaderRecoveryAction::ReturnCallResult
            },
            (_, HeaderRecoveryEvent::RefreshReturned { .. }) => {
                self.phase = HeaderRecoveryPhase::Finished;
                HeaderRecoveryAction::ReturnCallResult
            },
        }
    }
}

/// A tool call is retried at most once, and only after its first attempt
/// failed with the header-mismatch code and the schema refresh succeeded: a
/// retry never follows a retry, so no call is issued more than twice.
pub proof fn law_header_mismatch_retries_at_most_once(r: HeaderRecovery, e: HeaderRecoveryEvent)
    requires
        r.wf(),
        r.expects(e),
    ensures
        r.calls_issued <= 2,
        recovery_step(r.phase, e).1 == HeaderRecoveryAction::RetryCall ==> r.phase
            == HeaderRecoveryPhase::AwaitingRefresh,
        r.phase == HeaderRecoveryPhase::AwaitingRetry ==> recovery_step(r.phase, e).0
            == HeaderRecoveryPhase::Finished,
        r.phase == HeaderRecoveryPhase::AwaitingCall ==> (recovery_step(r.phase, e).1
            == HeaderRecoveryAction::RefreshSchemas <==> (e matches HeaderRecoveryEvent::CallReturned(o)
            && outcome_is_mismatch(o))),
{
}

/// The outcome of resolving one exact tool on a subject-scoped upstream:
/// nothing for a disabled or non-OAuth upstream, for a tool the upstream did
/// not return (`discovered` is `None` on a miss, a failure or a timeout), and
/// for a tool its allowlist hides; otherwise the tool routed to it.
pub fn subject_scoped_upstream_tool_allowed(config: &UpstreamConfig, discovered: Option<ToolDescriptor>) -> (r:
    Option<UpstreamTool>)
    ensures
        match r {
            Some(t) => config.enabled && config.oauth && discovered == Some(t.tool) && t.upstream_name
                == config.name && pview_matches(config_tool_policy(*config), t.tool.name@),
            None => !config.enabled || !config.oauth || match discovered {
                Some(d) => !pview_matches(config_tool_policy(*config), d.name@),
                None => true,
            },
        },
{
    if !config.enabled || !config.oauth {
        return None;
    }
    match discovered {
        None => None,
        Some(tool) => {
            if subject_scoped_tool_is_exposed(config, tool.name.as_str()) {
                Some(UpstreamTool { upstream_name: config.name.clone(), tool })
            } else {
                None
            }
        },
    }
}

} // verus!
