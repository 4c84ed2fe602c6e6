//! The trajectory of a session: one record per turn, each holding the spans
//! (thinking, tool calls, tool results, the response) in the order they
//! happened.  The recorder keeps the bookkeeping; writing the records out is
//! left to its caller.
use vstd::prelude::*;

verus! {

/// A single span within a turn: one atomic event in the trajectory.
pub enum Span {
    Thinking { text: String },
    /// A tool call; `input` holds the call's JSON arguments as text, if any.
    ToolCall { id: String, name: String, input: Option<String> },
    ToolResult {
        /// Matches the id from the corresponding tool call span.
        call_id: String,
        output: String,
        duration_ms: u64,
    },
    Response {
        text: String,
        input_tokens: u64,
        output_tokens: u64,
        cached_tokens: u64,
        reasoning_tokens: u64,
    },
}

/// A span as plain values.
pub enum SpanModel {
    Thinking(Seq<char>),
    ToolCall { id: Seq<char>, name: Seq<char>, input: Option<Seq<char>> },
    ToolResult { call_id: Seq<char>, output: Seq<char>, duration_ms: u64 },
    Response {
        text: Seq<char>,
        input_tokens: u64,
        output_tokens: u64,
        cached_tokens: u64,
        reasoning_tokens: u64,
    },
}

pub open spec fn opt_view(o: Option<String>) -> Option<Seq<char>> {
    match o {
        Some(s) => Some(s@),
        None => None,
    }
}

impl View for Span {
    type V = SpanModel;

    open spec fn view(&self) -> SpanModel {
        match self {
            Span::Thinking { text } => SpanModel::Thinking(text@),
            Span::ToolCall { id, name, input } => SpanModel::ToolCall {
                id: id@,
                name: name@,
                input: opt_view(*input),
            },
            Span::ToolResult { call_id, output, duration_ms } => SpanModel::ToolResult {
                call_id: call_id@,
                output: output@,
                duration_ms: *duration_ms,
            },
            Span::Response { text, input_tokens, output_tokens, cached_tokens, reasoning_tokens } =>
            SpanModel::Response {
                text: text@,
                input_tokens: *input_tokens,
                output_tokens: *output_tokens,
                cached_tokens: *cached_tokens,
                reasoning_tokens: *reasoning_tokens,
            },
        }
    }
}

pub open spec fn spans_view(s: Seq<Span>) -> Seq<SpanModel> {
    s.map_values(|x: Span| x@)
}

/// One full turn: the user message and all spans produced by the agent.
pub struct TurnRecord {
    pub turn: usize,
    /// When the turn was recorded, as RFC 3339 text.
    pub timestamp: String,
    pub user: String,
    pub spans: Vec<Span>,
    pub total_duration_ms: u64,
}

/// Collects the spans of the current turn.  Times are milliseconds on a
/// monotonic clock, read by the caller.
pub struct TrajectoryRecorder {
    turn: usize,
    user: String,
    spans: Vec<Span>,
    turn_start_ms: u64,
    /// The id and start time of the most recent tool call, so that its
    /// duration can be computed when the result arrives.
    pending_call: Option<(String, u64)>,
    thinking_buf: String,
}

impl TrajectoryRecorder {
    /// Number of the current turn (0 before the first).
    pub closed spec fn turn_no(&self) -> nat {
        self.turn as nat
    }

    /// The user message of the current turn.
    pub closed spec fn user_text(&self) -> Seq<char> {
        self.user@
    }

    /// Spans recorded so far in the current turn.
    pub closed spec fn span_log(&self) -> Seq<SpanModel> {
        spans_view(self.spans@)
    }

    /// Thinking text fed since the last flush.
    pub closed spec fn thinking(&self) -> Seq<char> {
        self.thinking_buf@
    }

    /// The id and start time of the pending tool call, if any.
    pub closed spec fn pending(&self) -> Option<(Seq<char>, u64)> {
        match self.pending_call {
            Some((id, t)) => Some((id@, t)),
            None => None,
        }
    }

    /// When the current turn started.
    pub closed spec fn started_at(&self) -> u64 {
        self.turn_start_ms
    }

    /// A recorder before its first turn.
    pub fn new(now_ms: u64) -> (r: Self)
        ensures
            r.turn_no() == 0,
            r.user_text() == Seq::<char>::empty(),
            r.span_log() == Seq::<SpanModel>::empty(),
            r.thinking() == Seq::<char>::empty(),
            r.pending() is None,
            r.started_at() == now_ms,
    {
        let r = TrajectoryRecorder {
            turn: 0,
            user: String::new(),
            spans: Vec::new(),
            turn_start_ms: now_ms,
            pending_call: None,
            thinking_buf: String::new(),
        };
        assert(r.span_log() =~= Seq::<SpanModel>::empty());
        r
    }

    /// Start a new turn with the given user message.
    pub fn start_turn(&mut self, user: &str, now_ms: u64)
        requires
            old(self).turn_no() < usize::MAX,
        ensures
            final(self).turn_no() == old(self).turn_no() + 1,
            final(self).user_text() == user@,
            final(self).span_log() == Seq::<SpanModel>::empty(),
            final(self).thinking() == Seq::<char>::empty(),
            final(self).pending() is None,
            final(self).started_at() == now_ms,
    {
        self.turn = self.turn + 1;
        self.user = user.to_string();
        self.spans = Vec::new();
        self.turn_start_ms = now_ms;
        self.pending_call = None;
        self.thinking_buf = String::new();
        assert(self.span_log() =~= Seq::<SpanModel>::empty());
    }

    /// Accumulate a thinking chunk; flushed as a single span by
    /// `finish_thinking`.
    pub fn feed_thinking(&mut self, chunk: &str)
        ensures
            final(self).thinking() == old(self).thinking() + chunk@,
            final(self).span_log() == old(self).span_log(),
            final(self).turn_no() == old(self).turn_no(),
            final(self).user_text() == old(self).user_text(),
            final(self).pending() == old(self).pending(),
            final(self).started_at() == old(self).started_at(),
    {
        let mut buf: Vec<char> = crate::text::chars_of(self.thinking_buf.as_str());
        crate::text::push_str(&mut buf, chunk);
        self.thinking_buf = crate::text::string_of(&buf);
    }

    /// Emit the buffered thinking as one span, if there is any.
    pub fn finish_thinking(&mut self)
        ensures
            final(self).thinking() == Seq::<char>::empty(),
            final(self).span_log() == if old(self).thinking().len() > 0 {
                old(self).span_log().push(SpanModel::Thinking(old(self).thinking()))
            } else {
                old(self).span_log()
            },
            final(self).turn_no() == old(self).turn_no(),
            final(self).user_text() == old(self).user_text(),
            final(self).pending() == old(self).pending(),
            final(self).started_at() == old(self).started_at(),
    {
        let mut text = String::new();
        std::mem::swap(&mut text, &mut self.thinking_buf);
        if !text.as_str().is_empty() {
            self.spans.push(Span::Thinking { text });
        }
        assert(self.span_log() =~= if old(self).thinking().len() > 0 {
            old(self).span_log().push(SpanModel::Thinking(old(self).thinking()))
        } else {
            old(self).span_log()
        });
    }

    /// Record the start of a tool call; its duration is counted from `now_ms`.
    pub fn tool_call(&mut self, id: &str, name: &str, input: Option<String>, now_ms: u64)
        ensures
            final(self).span_log() == old(self).span_log().push(
                SpanModel::ToolCall { id: id@, name: name@, input: opt_view(input) },
            ),
            final(self).pending() == Some((id@, now_ms)),
            final(self).thinking() == old(self).thinking(),
            final(self).turn_no() == old(self).turn_no(),
            final(self).user_text() == old(self).user_text(),
            final(self).started_at() == old(self).started_at(),
    {
        self.pending_call = Some((id.to_string(), now_ms));
        self.spans.push(Span::ToolCall { id: id.to_string(), name: name.to_string(), input });
        assert(self.span_log() =~= old(self).span_log().push(
            SpanModel::ToolCall { id: id@, name: name@, input: opt_view(input) },
        ));
    }

    /// Record a tool result.  It is matched to the pending call by id: when
    /// the pending call has id `call_id`, the result is timed from that
    /// call's start (0 if the clock went back) and the call is no longer
    /// pending; otherwise its duration is 0 and the pending call stays.
    pub fn tool_result(&mut self, call_id: &str, output: &str, now_ms: u64)
        ensures
            final(self).span_log() == old(self).span_log().push(
                SpanModel::ToolResult {
                    call_id: call_id@,
                    output: output@,
                    duration_ms: match old(self).pending() {
                        Some((pid, t)) => if pid == call_id@ && now_ms >= t {
                            (now_ms - t) as u64
                        } else {
                            0
                        },
                        None => 0,
                    },
                },
            ),
            final(self).pending() == match old(self).pending() {
                Some((pid, t)) => if pid == call_id@ {
                    None
                } else {
                    Some((pid, t))
                },
                None => None,
            },
            final(self).thinking() == old(self).thinking(),
            final(self).turn_no() == old(self).turn_no(),
            final(self).user_text() == old(self).user_text(),
            final(self).started_at() == old(self).started_at(),
    {
        let mut duration_ms: u64 = 0;
        let matches = match &self.pending_call {
            Some((id, _)) => crate::text::eq_str(&crate::text::chars_of(id.as_str()), call_id),
            None => false,
        };
        if matches {
            match self.pending_call.take() {
                Some((_, t)) => {
                    duration_ms = now_ms.saturating_sub(t);
                },
                None => {},
            }
        }
        self.spans.push(
            Span::ToolResult { call_id: call_id.to_string(), output: output.to_string(), duration_ms },
        );
        assert(self.span_log() =~= old(self).span_log().push(
            SpanModel::ToolResult { call_id: call_id@, output: output@, duration_ms },
        ));
    }

    /// Record the final response and hand back the complete turn record;
    /// the recorder's spans start empty again.
    pub fn finish_turn(
        &mut self,
        text: &str,
        input_tokens: u64,
        output_tokens: u64,
        cached_tokens: u64,
        reasoning_tokens: u64,
        now_ms: u64,
        timestamp: String,
    ) -> (r: TurnRecord)
        ensures
            r.turn == old(self).turn_no(),
            r.user@ == old(self).user_text(),
            r.timestamp == timestamp,
            spans_view(r.spans@) == old(self).span_log().push(
                SpanModel::Response {
                    text: text@,
                    input_tokens,
                    output_tokens,
                    cached_tokens,
                    reasoning_tokens,
                },
            ),
            r.total_duration_ms == if now_ms >= old(self).started_at() {
                (now_ms - old(self).started_at()) as u64
            } else {
                0
            },
            final(self).span_log() == Seq::<SpanModel>::empty(),
            final(self).turn_no() == old(self).turn_no(),
            final(self).user_text() == old(self).user_text(),
            final(self).thinking() == old(self).thinking(),
            final(self).pending() == old(self).pending(),
            final(self).started_at() == old(self).started_at(),
    {
        self.spans.push(
            Span::Response {
                text: text.to_string(),
                input_tokens,
                output_tokens,
                cached_tokens,
                reasoning_tokens,
            },
        );
        let mut spans: Vec<Span> = Vec::new();
        std::mem::swap(&mut spans, &mut self.spans);
        let r = TurnRecord {
            turn: self.turn,
            timestamp,
            user: self.user.clone(),
            spans,
            total_duration_ms: now_ms.saturating_sub(self.turn_start_ms),
        };
        assert(spans_view(r.spans@) =~= old(self).span_log().push(
            SpanModel::Response { text: text@, input_tokens, output_tokens, cached_tokens, reasoning_tokens },
        ));
        assert(self.span_log() =~= Seq::<SpanModel>::empty());
        r
    }
}

} // verus!
