//! Stdio upstream stderr: level selection, line capping, the bounded
//! diagnostic tail, the per-second forwarding cap, and connect errors that
//! carry that tail.
//!
//! Redaction is not done here. Every forwarded line must be scrubbed of
//! secrets before it enters the diagnostic tail or a log; the scrubbing
//! rules belong to the gateway's runtime crate, which this workspace does not
//! contain, so the forwarding loop takes the scrubber from its embedder and
//! applies it to the capped line that [`StderrRateWindow::on_line`] admits.

use vstd::prelude::*;
use vstd::utf8::*;
use vstd::string::StringSliceAdditionalSpecFns;
use vstd::string::StringExecFns;
use crate::text::{ascii_lower, chars_eq_str, chars_of, char_is_whitespace, is_blank, is_ws, trim, trimmed_ascii_lower};

verus! {

broadcast use vstd::string::group_string_axioms;

/// Lines retained for startup-failure diagnosis.
pub const STDERR_DIAGNOSTIC_MAX_LINES: usize = 80;

/// Maximum number of bytes forwarded per line from a child's stderr.
pub const STDERR_LINE_MAX_BYTES: usize = 1024;

/// Maximum number of lines forwarded per second from a single upstream's stderr.
pub const STDERR_RATE_CAP_PER_SEC: u32 = 50;

/// Log level at which forwarded stderr lines are emitted.
#[derive(Debug, Clone, Copy, PartialEq, Eq, Structural)]
pub enum StderrLevel {
    Trace,
    Debug,
    Info,
    Warn,
    Error,
}

/// What `parse_stderr_level` yields for a configured value.
pub open spec fn stderr_level_of(raw: Option<Seq<char>>) -> Option<StderrLevel> {
    match raw {
        None => Some(StderrLevel::Debug),
        Some(r) => {
            let t = ascii_lower(trim(r));
            if t == "null"@ || t == "off"@ || t == "0"@ || t == "none"@ || t == "discard"@ || t
                == "false"@ {
                None
            } else if t == "trace"@ {
                Some(StderrLevel::Trace)
            } else if t == "info"@ {
                Some(StderrLevel::Info)
            } else if t == "warn"@ || t == "warning"@ {
                Some(StderrLevel::Warn)
            } else {
                Some(StderrLevel::Debug)
            }
        },
    }
}

pub open spec fn opt_str_view(raw: Option<&str>) -> Option<Seq<char>> {
    match raw {
        None => None,
        Some(r) => Some(r@),
    }
}

/// Parse a configured stderr level. Absent means `Debug`; disable-flavored
/// values mean discard; enable-flavored and unknown values fall back to `Debug`.
pub fn parse_stderr_level(raw: Option<&str>) -> (level: Option<StderrLevel>)
    ensures
        level == stderr_level_of(opt_str_view(raw)),
{
    let raw = match raw {
        None => {
            return Some(StderrLevel::Debug);
        },
        Some(r) => r,
    };
    let t = trimmed_ascii_lower(raw);
    if chars_eq_str(&t, "null") || chars_eq_str(&t, "off") || chars_eq_str(&t, "0")
        || chars_eq_str(&t, "none") || chars_eq_str(&t, "discard") || chars_eq_str(&t, "false") {
        None
    } else if chars_eq_str(&t, "trace") {
        Some(StderrLevel::Trace)
    } else if chars_eq_str(&t, "info") {
        Some(StderrLevel::Info)
    } else if chars_eq_str(&t, "warn") || chars_eq_str(&t, "warning") {
        Some(StderrLevel::Warn)
    } else {
        Some(StderrLevel::Debug)
    }
}

/// Level resolution: the environment value, when set, wins over the
/// configured default; both absent means `Debug`.
pub open spec fn resolved_stderr_level(env: Option<Seq<char>>, configured: Option<Seq<char>>) -> Option<
    StderrLevel,
> {
    match env {
        Some(e) => stderr_level_of(Some(e)),
        None => stderr_level_of(configured),
    }
}

/// Resolve the forwarded-stderr level from the environment value and the
/// configured default, in that priority.
pub fn upstream_stderr_log_level(env: Option<&str>, configured: Option<&str>) -> (level: Option<
    StderrLevel,
>)
    ensures
        level == resolved_stderr_level(opt_str_view(env), opt_str_view(configured)),
{
    match env {
        Some(e) => parse_stderr_level(Some(e)),
        None => parse_stderr_level(configured),
    }
}

/// Largest character boundary of `bytes` at or below `k`.
pub open spec fn boundary_at_or_below(bytes: Seq<u8>, k: nat) -> nat
    decreases k,
{
    if k == 0 || is_char_boundary(bytes, k as int) {
        k
    } else {
        boundary_at_or_below(bytes, (k - 1) as nat)
    }
}

proof fn lemma_boundary_below(bytes: Seq<u8>, k: nat)
    requires
        valid_utf8(bytes),
    ensures
        boundary_at_or_below(bytes, k) <= k,
        is_char_boundary(bytes, boundary_at_or_below(bytes, k) as int),
    decreases k,
{
    if k == 0 {
        is_char_boundary_start_end_of_seq(bytes);
    } else if !is_char_boundary(bytes, k as int) {
        lemma_boundary_below(bytes, (k - 1) as nat);
    }
}

/// Truncate `line` to at most `max` bytes without splitting a UTF-8 codepoint.
pub fn cap_line_bytes(line: &str, max: usize) -> (capped: &str)
    ensures
        line.spec_bytes().len() <= max ==> capped@ == line@,
        line.spec_bytes().len() > max ==> capped.spec_bytes() == line.spec_bytes().subrange(
            0,
            boundary_at_or_below(line.spec_bytes(), max as nat) as int,
        ),
        line.spec_bytes().len() > max ==> capped.spec_bytes().len() <= max,
        capped@.len() <= line@.len(),
        line@.subrange(0, capped@.len() as int) == capped@,
{
    let nbytes = line.as_bytes().len();
    if nbytes <= max {
        return line;
    }
    let ghost bytes = line.spec_bytes();
    proof {
        encode_utf8_valid_utf8(line@);
    }
    let mut cut = max;
    while cut > 0 && !line.is_char_boundary(cut)
        invariant
            cut <= max,
            bytes == line.spec_bytes(),
            valid_utf8(bytes),
            boundary_at_or_below(bytes, max as nat) == boundary_at_or_below(bytes, cut as nat),
        decreases cut,
    {
        cut = cut - 1;
    }
    proof {
        lemma_boundary_below(bytes, cut as nat);
        decode_utf8_split(bytes, cut as int);
        encode_utf8_decode_utf8(line@);
    }
    let (head, _tail) = line.split_at(cut);
    proof {
        encode_utf8_decode_utf8(head@);
        encode_utf8_decode_utf8(_tail@);
        let h = bytes.subrange(0, cut as int);
        let t = bytes.subrange(cut as int, bytes.len() as int);
        assert(head@ == decode_utf8(h));
        assert(line@ == decode_utf8(h) + decode_utf8(t));
        assert(line@.subrange(0, head@.len() as int) =~= head@);
    }
    head
}

/// The bounded tail of a child's stderr kept for startup diagnostics.
pub struct StdioDiagnostics {
    lines: Vec<String>,
}

/// The tail after appending `line` to `lines`: the oldest line leaves once
/// the tail is full.
pub open spec fn diagnostics_after_push(lines: Seq<Seq<char>>, line: Seq<char>) -> Seq<Seq<char>> {
    if lines.len() >= STDERR_DIAGNOSTIC_MAX_LINES {
        lines.drop_first().push(line)
    } else {
        lines.push(line)
    }
}

/// Lines joined with `"\n"` between them.
pub open spec fn join_lines(lines: Seq<Seq<char>>) -> Seq<char>
    decreases lines.len(),
{
    if lines.len() == 0 {
        Seq::empty()
    } else if lines.len() == 1 {
        lines[0]
    } else {
        join_lines(lines.drop_last()) + "\n"@ + lines.last()
    }
}

impl StdioDiagnostics {
    pub closed spec fn view_lines(&self) -> Seq<Seq<char>> {
        self.lines@.map_values(|s: String| s@)
    }

    pub closed spec fn wf(&self) -> bool {
        self.lines@.len() <= STDERR_DIAGNOSTIC_MAX_LINES
    }

    pub fn new() -> (d: Self)
        ensures
            d.wf(),
            d.view_lines() == Seq::<Seq<char>>::empty(),
    {
        let d = StdioDiagnostics { lines: Vec::new() };
        assert(d.view_lines() =~= Seq::<Seq<char>>::empty());
        d
    }

    /// Append one line, dropping the oldest once the tail holds its maximum.
    pub fn push(&mut self, line: String)
        requires
            old(self).wf(),
        ensures
            final(self).wf(),
            final(self).view_lines() == diagnostics_after_push(old(self).view_lines(), line@),
    {
        let ghost before = self.lines@;
        if self.lines.len() >= STDERR_DIAGNOSTIC_MAX_LINES {
            self.lines.remove(0);
            assert(self.lines@ =~= before.drop_first());
        }
        let ghost mid = self.lines@;
        self.lines.push(line);
        assert(self.lines@ =~= mid.push(line));
        proof {
            if before.len() >= STDERR_DIAGNOSTIC_MAX_LINES {
                assert(self.view_lines() =~= before.map_values(|s: String| s@).drop_first().push(
                    line@,
                ));
            } else {
                assert(self.view_lines() =~= before.map_values(|s: String| s@).push(line@));
            }
        }
    }

    /// The retained lines joined by newlines.
    pub fn snapshot_text(&self) -> (text: String)
        ensures
            text@ == join_lines(self.view_lines()),
    {
        let mut out = String::new();
        let n = self.lines.len();
        let mut i: usize = 0;
        while i < n
            invariant
                i <= n == self.lines@.len(),
                out@ == join_lines(self.view_lines().take(i as int)),
            decreases n - i,
        {
            let ghost vl = self.view_lines();
            assert(vl.take(i + 1).drop_last() =~= vl.take(i as int));
            if i > 0 {
                out.append("\n");
            }
            out.append(self.lines[i].as_str());
            proof {
                if i == 0 {
                    assert(vl.take(1).len() == 1);
                    assert(out@ =~= vl.take(1)[0]);
                }
            }
            i = i + 1;
        }
        assert(self.view_lines().take(n as int) =~= self.view_lines());
        out
    }
}

/// What to do with one stderr line.
#[derive(Debug, PartialEq, Eq)]
pub enum StderrLineOutcome {
    /// Blank: not forwarded, not counted.
    Skip,
    /// Over the per-second cap: counted as dropped.
    Drop,
    /// Forward this (capped) text.
    Forward(String),
}

/// Decision for one line: a rate-cap report closing the previous window, if
/// any, and what happens to the line itself.
#[derive(Debug, PartialEq, Eq)]
pub struct StderrLineDecision {
    pub dropped_report: Option<u32>,
    pub outcome: StderrLineOutcome,
}

/// Per-second forwarding window over one upstream's stderr.
pub struct StderrRateWindow {
    pub window_start_ms: u64,
    pub lines_this_window: u32,
    pub dropped_this_window: u32,
}

/// The forwarded text of a line: capped to the byte budget, with a marker
/// when anything was cut.
pub open spec fn forwarded_text(line: &str) -> Seq<char> {
    if line.spec_bytes().len() <= STDERR_LINE_MAX_BYTES {
        line@
    } else {
        decode_utf8(
            line.spec_bytes().subrange(
                0,
                boundary_at_or_below(line.spec_bytes(), STDERR_LINE_MAX_BYTES as nat) as int,
            ),
        ) + "…[truncated]"@
    }
}

impl StderrRateWindow {
    pub fn new(now_ms: u64) -> (w: Self)
        ensures
            w.window_start_ms == now_ms,
            w.lines_this_window == 0,
            w.dropped_this_window == 0,
    {
        StderrRateWindow { window_start_ms: now_ms, lines_this_window: 0, dropped_this_window: 0 }
    }

    /// Account for one stderr line read at `now_ms`.
    pub fn on_line(&mut self, line: &str, now_ms: u64) -> (d: StderrLineDecision)
        ensures
            is_blank(line@) ==> d.outcome == StderrLineOutcome::Skip && d.dropped_report.is_none()
                && *final(self) == *old(self),
            !is_blank(line@) ==> ({
                let rolled = now_ms >= old(self).window_start_ms + 1000;
                let count = if rolled {
                    0
                } else {
                    old(self).lines_this_window
                };
                let dropped = if rolled {
                    0
                } else {
                    old(self).dropped_this_window
                };
                &&& d.dropped_report == (if rolled && old(self).dropped_this_window > 0 {
                    Some(old(self).dropped_this_window)
                } else {
                    None
                })
                &&& final(self).window_start_ms == (if rolled {
                    now_ms
                } else {
                    old(self).window_start_ms
                })
                &&& count >= STDERR_RATE_CAP_PER_SEC ==> d.outcome == StderrLineOutcome::Drop
                    && final(self).lines_this_window == count && final(self).dropped_this_window
                    == if dropped < u32::MAX {
                    (dropped + 1) as u32
                } else {
                    dropped
                }
                &&& count < STDERR_RATE_CAP_PER_SEC ==> final(self).lines_this_window == count + 1
                    && final(self).dropped_this_window == dropped && (d.outcome matches StderrLineOutcome::Forward(t) && t@ == forwarded_text(line))
            }),
    {
        if line_is_blank(line) {
            return StderrLineDecision { dropped_report: None, outcome: StderrLineOutcome::Skip };
        }
        let mut dropped_report = None;
        if now_ms >= self.window_start_ms && now_ms - self.window_start_ms >= 1000 {
            if self.dropped_this_window > 0 {
                dropped_report = Some(self.dropped_this_window);
            }
            self.window_start_ms = now_ms;
            self.lines_this_window = 0;
            self.dropped_this_window = 0;
        }
        if self.lines_this_window >= STDERR_RATE_CAP_PER_SEC {
            self.dropped_this_window = self.dropped_this_window.saturating_add(1);
            return StderrLineDecision { dropped_report, outcome: StderrLineOutcome::Drop };
        }
        self.lines_this_window = self.lines_this_window + 1;
        let text = truncated_line(line);
        StderrLineDecision { dropped_report, outcome: StderrLineOutcome::Forward(text) }
    }
}

/// Whether the line is empty after trimming.
pub fn line_is_blank(line: &str) -> (b: bool)
    ensures
        b == is_blank(line@),
{
    let cs = chars_of(line);
    let mut i: usize = 0;
    while i < cs.len()
        invariant
            i <= cs@.len(),
            cs@ == line@,
            forall|j: int| 0 <= j < i ==> is_ws(#[trigger] cs@[j]),
        decreases cs.len() - i,
    {
        if !char_is_whitespace(cs[i]) {
            return false;
        }
        i = i + 1;
    }
    true
}

/// The line capped to `STDERR_LINE_MAX_BYTES`, with a truncation marker when cut.
pub fn truncated_line(line: &str) -> (t: String)
    ensures
        t@ == forwarded_text(line),
{
    let capped = cap_line_bytes(line, STDERR_LINE_MAX_BYTES);
    let capped_len = capped.as_bytes().len();
    let line_len = line.as_bytes().len();
    if capped_len < line_len {
        proof {
            encode_utf8_decode_utf8(capped@);
            assert(line.spec_bytes().len() > STDERR_LINE_MAX_BYTES);
            assert(capped@ == decode_utf8(capped.spec_bytes()));
        }
        let mut t = capped.to_owned();
        t.append("…[truncated]");
        t
    } else {
        line.to_owned()
    }
}

/// External error type carried by a failed stdio connect.
#[verifier::external_type_specification]
#[verifier::external_body]
pub struct ExAnyhowError(anyhow::Error);

/// What `anyhow` renders for an error in its alternate (`{:#}`) form: the
/// message followed by its cause chain.
pub uninterp spec fn anyhow_alternate_rendering(error: anyhow::Error) -> Seq<char>;

/// `anyhow::Error`'s alternate (`{:#}`) rendering. The contract names the
/// text; what anyhow puts into it is not stated.
#[verifier::external_body]
fn anyhow_alternate_text(error: &anyhow::Error) -> (s: String)
    ensures
        s@ == anyhow_alternate_rendering(*error),
{
    format!("{:#}", error)
}

/// What `anyhow::Error::context` makes of `error` and `context`.
pub uninterp spec fn anyhow_with_context(error: anyhow::Error, context: Seq<char>) -> anyhow::Error;

/// `anyhow::Error::context`: wraps `error` with `context` as its outermost
/// message. The contract names the result; how it renders is not stated.
#[verifier::external_body]
fn anyhow_context(error: anyhow::Error, context: String) -> (r: anyhow::Error)
    ensures
        r == anyhow_with_context(error, context@),
{
    error.context(context)
}

/// A failed stdio connect, its typed protocol error, and the child's stderr tail.
pub struct StdioConnectError {
    error: anyhow::Error,
    message: String,
    diagnostics: String,
    child_exited: bool,
}

/// Operator text: the error message, then the stderr tail on its own lines
/// unless the tail is blank.
pub open spec fn diagnostics_text(message: Seq<char>, diagnostics: Seq<char>) -> Seq<char> {
    if is_blank(diagnostics) {
        message
    } else {
        message + "\n"@ + diagnostics
    }
}

impl StdioConnectError {
    pub closed spec fn message_view(&self) -> Seq<char> {
        self.message@
    }

    pub closed spec fn diagnostics_view(&self) -> Seq<char> {
        self.diagnostics@
    }

    pub closed spec fn error_value(&self) -> anyhow::Error {
        self.error
    }

    pub closed spec fn child_exited_flag(&self) -> bool {
        self.child_exited
    }

    pub fn without_diagnostics(error: anyhow::Error) -> (e: Self)
        ensures
            e.error_value() == error,
            e.message_view() == anyhow_alternate_rendering(error),
            e.diagnostics_view() == Seq::<char>::empty(),
            !e.child_exited_flag(),
    {
        let message = anyhow_alternate_text(&error);
        StdioConnectError { error, message, diagnostics: String::new(), child_exited: false }
    }

    pub fn with_diagnostics(error: anyhow::Error, diagnostics: String, child_exited: bool) -> (e:
        Self)
        ensures
            e.error_value() == error,
            e.message_view() == anyhow_alternate_rendering(error),
            e.diagnostics_view() == diagnostics@,
            e.child_exited_flag() == child_exited,
    {
        let message = anyhow_alternate_text(&error);
        StdioConnectError { error, message, diagnostics, child_exited }
    }

    pub fn child_exited(&self) -> (b: bool)
        ensures
            b == self.child_exited_flag(),
    {
        self.child_exited
    }

    /// The typed failure on its own, with the child's stderr excluded.
    pub fn protocol_error(&self) -> (e: &anyhow::Error)
        ensures
            *e == self.error_value(),
    {
        &self.error
    }

    pub fn diagnostics_with_error(&self) -> (text: String)
        ensures
            text@ == diagnostics_text(self.message_view(), self.diagnostics_view()),
    {
        let mut out = self.message.clone();
        if line_is_blank(self.diagnostics.as_str()) {
            out
        } else {
            out.append("\n");
            out.append(self.diagnostics.as_str());
            out
        }
    }

    /// The error, with the stderr tail attached as context unless it is blank.
    pub fn into_anyhow(self) -> (e: anyhow::Error)
        ensures
            is_blank(self.diagnostics_view()) ==> e == self.error_value(),
            !is_blank(self.diagnostics_view()) ==> e == anyhow_with_context(
                self.error_value(),
                "upstream stderr:\n"@ + self.diagnostics_view(),
            ),
    {
        if line_is_blank(self.diagnostics.as_str()) {
            self.error
        } else {
            let mut context = String::from_str("upstream stderr:\n");
            context.append(self.diagnostics.as_str());
            proof {
                reveal_strlit("upstream stderr:\n");
            }
            anyhow_context(self.error, context)
        }
    }
}

} // verus!
