//! Keeping the conversation within the model's context window: when to
//! compact, shortening old tool results, and summarising the middle of the
//! history.
use crate::text::{
    byte_len, byte_len_chars, chars_of, decimal, fit_chars, fit_prefix, join_chars, join_parts,
    lemma_deep_view_chars, push_all, push_decimal_u128, push_str, slice_chars, string_of,
};
use vstd::prelude::*;

verus! {

/// Messages from the start of history that are never dropped (first user turn).
pub const KEEP_FIRST: usize = 2;

/// Messages at the end of history that are never dropped (recent turns).
pub const KEEP_LAST: usize = 8;

/// Truncate tool result bodies older than KEEP_LAST messages to this many bytes.
pub const TOOL_RESULT_MAX_CHARS: usize = 400;

/// Compact when context fill reaches this percentage (requires a context size).
pub const FILL_PCT_THRESHOLD: u64 = 75;

/// Absolute fallback threshold when no context size is set.
pub const ABSOLUTE_TOKEN_THRESHOLD: u64 = 80_000;

// ── When to compact ────────────────────────────────────────────────────────

/// The context fill has reached the threshold: 75% of `context_size` when it
/// is set, 80 000 tokens otherwise.
pub open spec fn spec_needs_compaction(last_input_tokens: nat, context_size: nat) -> bool {
    if context_size > 0 {
        (last_input_tokens * 100) / context_size >= FILL_PCT_THRESHOLD
    } else {
        last_input_tokens >= ABSOLUTE_TOKEN_THRESHOLD
    }
}

/// Returns true when the context fill exceeds the configured threshold.
pub fn needs_compaction(last_input_tokens: u64, context_size: u64) -> (b: bool)
    requires
        context_size > 0 ==> last_input_tokens * 100 <= u64::MAX,
    ensures
        b == spec_needs_compaction(last_input_tokens as nat, context_size as nat),
{
    if context_size > 0 {
        (last_input_tokens * 100) / context_size >= FILL_PCT_THRESHOLD
    } else {
        last_input_tokens >= ABSOLUTE_TOKEN_THRESHOLD
    }
}

/// Compaction is monotone: more tokens in the last request never turn a
/// "compact" verdict into "don't compact".
pub proof fn lemma_needs_compaction_monotone(a: nat, b: nat, context_size: nat)
    requires
        a <= b,
        spec_needs_compaction(a, context_size),
    ensures
        spec_needs_compaction(b, context_size),
{
    if context_size > 0 {
        assert((a * 100) / context_size <= (b * 100) / context_size) by (nonlinear_arith)
            requires
                a <= b,
                context_size > 0,
        ;
    }
}


// ── Conversation model ─────────────────────────────────────────────────────

/// One part of a tool result.
pub enum ToolResultContent {
    Text(String),
    /// Any non-text part (an image, a document).
    Other,
}

/// The result of a tool call, as fed back to the model.
pub struct ToolResult {
    pub id: String,
    pub content: Vec<ToolResultContent>,
}

/// One part of a user message.
pub enum UserContent {
    Text(String),
    ToolResult(ToolResult),
    /// Any other part (an image, a document).
    Other,
}

/// One part of an assistant message.
pub enum AssistantContent {
    Text(String),
    /// A tool call: the tool's name and its JSON arguments as text.
    ToolCall { name: String, arguments: String },
    /// Any other part (reasoning, an image).
    Other,
}

/// A message of the conversation history.
pub enum Message {
    User { content: Vec<UserContent> },
    Assistant { content: Vec<AssistantContent> },
    System { content: String },
}

pub enum PartModel {
    Text(Seq<char>),
    Other,
}

pub struct ToolResultModel {
    pub id: Seq<char>,
    pub content: Seq<PartModel>,
}

pub enum UserModel {
    Text(Seq<char>),
    ToolResult(ToolResultModel),
    Other,
}

pub enum AssistantModel {
    Text(Seq<char>),
    ToolCall(Seq<char>, Seq<char>),
    Other,
}

pub enum MessageModel {
    User(Seq<UserModel>),
    Assistant(Seq<AssistantModel>),
    System(Seq<char>),
}

impl View for ToolResultContent {
    type V = PartModel;

    open spec fn view(&self) -> PartModel {
        match self {
            ToolResultContent::Text(t) => PartModel::Text(t@),
            ToolResultContent::Other => PartModel::Other,
        }
    }
}

impl View for ToolResult {
    type V = ToolResultModel;

    open spec fn view(&self) -> ToolResultModel {
        ToolResultModel { id: self.id@, content: self.content@.map_values(|c: ToolResultContent| c@) }
    }
}

impl View for UserContent {
    type V = UserModel;

    open spec fn view(&self) -> UserModel {
        match self {
            UserContent::Text(t) => UserModel::Text(t@),
            UserContent::ToolResult(tr) => UserModel::ToolResult(tr@),
            UserContent::Other => UserModel::Other,
        }
    }
}

impl View for AssistantContent {
    type V = AssistantModel;

    open spec fn view(&self) -> AssistantModel {
        match self {
            AssistantContent::Text(t) => AssistantModel::Text(t@),
            AssistantContent::ToolCall { name, arguments } => AssistantModel::ToolCall(
                name@,
                arguments@,
            ),
            AssistantContent::Other => AssistantModel::Other,
        }
    }
}

impl View for Message {
    type V = MessageModel;

    open spec fn view(&self) -> MessageModel {
        match self {
            Message::User { content } => MessageModel::User(
                content@.map_values(|c: UserContent| c@),
            ),
            Message::Assistant { content } => MessageModel::Assistant(
                content@.map_values(|c: AssistantContent| c@),
            ),
            Message::System { content } => MessageModel::System(content@),
        }
    }
}

pub open spec fn messages_view(v: Seq<Message>) -> Seq<MessageModel> {
    v.map_values(|m: Message| m@)
}

/// A user message holding one text part.
pub fn user_text(text: String) -> (m: Message)
    ensures
        m@ == MessageModel::User(seq![UserModel::Text(text@)]),
{
    let mut content: Vec<UserContent> = Vec::new();
    content.push(UserContent::Text(text));
    let m = Message::User { content };
    assert(m@ matches MessageModel::User(c) && c =~= seq![UserModel::Text(text@)]);
    m
}

// ── Tool results ───────────────────────────────────────────────────────────

/// The text parts of a tool result, in order.
pub open spec fn text_parts(c: Seq<PartModel>) -> Seq<Seq<char>>
    decreases c.len(),
{
    if c.len() == 0 {
        seq![]
    } else {
        (match c[0] {
            PartModel::Text(t) => seq![t],
            PartModel::Other => seq![],
        }) + text_parts(c.drop_first())
    }
}

/// The text of a tool result: its text parts joined by newlines.
pub open spec fn spec_tool_result_text(tr: ToolResultModel) -> Seq<char> {
    join_parts(text_parts(tr.content), seq!['\n'])
}

/// The text of a tool result: its text parts joined by newlines.
pub fn extract_tool_result_text(tr: &ToolResult) -> (r: String)
    ensures
        r@ == spec_tool_result_text(tr@),
{
    let ghost cv = tr@.content;
    let mut parts: Vec<Vec<char>> = Vec::new();
    let mut i: usize = 0;
    assert(cv.skip(0) =~= cv);
    while i < tr.content.len()
        invariant
            i <= tr.content.len(),
            cv == tr@.content,
            text_parts(cv) == parts.deep_view() + text_parts(cv.skip(i as int)),
        decreases tr.content.len() - i,
    {
        let ghost dv = parts.deep_view();
        assert(cv.skip(i as int).drop_first() =~= cv.skip(i + 1));
        assert(cv.skip(i as int)[0] == tr.content@[i as int]@);
        match &tr.content[i] {
            ToolResultContent::Text(t) => {
                let v = chars_of(t.as_str());
                proof {
                    lemma_deep_view_chars(&v);
                }
                parts.push(v);
                assert(parts.deep_view() =~= dv.push(v@));
                assert(text_parts(cv) =~= parts.deep_view() + text_parts(cv.skip(i + 1)));
            },
            ToolResultContent::Other => {
                assert(text_parts(cv) =~= parts.deep_view() + text_parts(cv.skip(i + 1)));
            },
        }
        i += 1;
    }
    assert(cv.skip(i as int) =~= Seq::<PartModel>::empty());
    assert(parts.deep_view() + Seq::<Seq<char>>::empty() =~= parts.deep_view());
    let nl = vec!['\n'];
    assert(nl@ =~= seq!['\n']);
    string_of(&join_chars(&parts, &nl))
}

/// A tool result text longer than 400 bytes, cut at the last character
/// boundary within 400 bytes, with a note of how many bytes were cut.
pub open spec fn truncated_text(text: Seq<char>) -> Seq<char> {
    let k = fit_chars(text, TOOL_RESULT_MAX_CHARS as int);
    text.take(k as int) + "… ["@ + decimal(byte_len(text.skip(k as int))) + " chars truncated]"@
}

/// A tool result after truncation: unchanged when its text fits in 400
/// bytes, otherwise its content becomes the single truncated text.
pub open spec fn spec_truncate(tr: ToolResultModel) -> ToolResultModel {
    let text = spec_tool_result_text(tr);
    if byte_len(text) <= TOOL_RESULT_MAX_CHARS {
        tr
    } else {
        ToolResultModel { id: tr.id, content: seq![PartModel::Text(truncated_text(text))] }
    }
}

/// Shorten a tool result whose text is longer than 400 bytes.
pub fn truncate_tool_result(tr: &mut ToolResult)
    ensures
        final(tr)@ == spec_truncate(old(tr)@),
{
    let text = chars_of(extract_tool_result_text(tr).as_str());
    let total = byte_len_chars(&text);
    if total <= TOOL_RESULT_MAX_CHARS as u128 {
        return;
    }
    let (k, kept_bytes) = fit_prefix(&text, TOOL_RESULT_MAX_CHARS);
    proof {
        crate::text::lemma_byte_len_concat(text@.take(k as int), text@.skip(k as int));
        assert(text@.take(k as int) + text@.skip(k as int) =~= text@);
    }
    let mut summary = slice_chars(&text, 0, k);
    push_str(&mut summary, "… [");
    push_decimal_u128(&mut summary, total - kept_bytes as u128);
    push_str(&mut summary, " chars truncated]");
    let mut content: Vec<ToolResultContent> = Vec::new();
    content.push(ToolResultContent::Text(string_of(&summary)));
    tr.content = content;
    assert(tr@.content =~= seq![PartModel::Text(summary@)]);
}


pub open spec fn compress_part(c: UserModel) -> UserModel {
    match c {
        UserModel::ToolResult(tr) => UserModel::ToolResult(spec_truncate(tr)),
        _ => c,
    }
}

/// A message with each of its tool results truncated.
pub open spec fn compress_message(m: MessageModel) -> MessageModel {
    match m {
        MessageModel::User(cs) => MessageModel::User(cs.map_values(|c: UserModel| compress_part(c))),
        _ => m,
    }
}

/// Index of the first of the last `KEEP_LAST` messages.
pub open spec fn keep_from(len: nat) -> nat {
    if len > KEEP_LAST {
        (len - KEEP_LAST) as nat
    } else {
        0
    }
}

fn compress_user_message(content: &mut Vec<UserContent>)
    ensures
        final(content)@.map_values(|c: UserContent| c@) == old(content)@.map_values(
            |c: UserContent| c@,
        ).map_values(|c: UserModel| compress_part(c)),
{
    let ghost before = old(content)@.map_values(|c: UserContent| c@);
    let mut j: usize = 0;
    while j < content.len()
        invariant
            j <= content.len(),
            content@.len() == before.len(),
            forall|t: int|
                0 <= t < content@.len() ==> #[trigger] content@[t]@ == if t < j {
                    compress_part(before[t])
                } else {
                    before[t]
                },
        decreases content.len() - j,
    {
        let mut item = UserContent::Other;
        content.set_and_swap(j, &mut item);
        let ghost was = item@;
        assert(was == before[j as int]);
        let fixed = match item {
            UserContent::ToolResult(mut tr) => {
                truncate_tool_result(&mut tr);
                UserContent::ToolResult(tr)
            },
            other => other,
        };
        assert(fixed@ == compress_part(was));
        content.set(j, fixed);
        j += 1;
    }
    assert(content@.map_values(|c: UserContent| c@) =~= before.map_values(
        |c: UserModel| compress_part(c),
    ));
}

/// Truncate the tool results in messages older than the last `KEEP_LAST`
/// messages.  Cheap: no model call.
pub fn compress_tool_results(history: &mut Vec<Message>)
    ensures
        final(history)@.len() == old(history)@.len(),
        forall|i: int|
            0 <= i < old(history)@.len() ==> #[trigger] final(history)@[i]@ == if i < keep_from(
                old(history)@.len(),
            ) {
                compress_message(old(history)@[i]@)
            } else {
                old(history)@[i]@
            },
{
    let ghost before = history@;
    let keep = if history.len() > KEEP_LAST {
        history.len() - KEEP_LAST
    } else {
        0
    };
    let mut i: usize = 0;
    while i < keep
        invariant
            i <= keep,
            keep == keep_from(before.len()),
            history@.len() == before.len(),
            forall|t: int|
                0 <= t < history@.len() ==> #[trigger] history@[t]@ == if t < i {
                    compress_message(before[t]@)
                } else {
                    before[t]@
                },
        decreases keep - i,
    {
        let mut msg = Message::System { content: String::new() };
        history.set_and_swap(i, &mut msg);
        let ghost was = msg@;
        assert(was == before[i as int]@);
        let fixed = match msg {
            Message::User { mut content } => {
                compress_user_message(&mut content);
                Message::User { content }
            },
            other => other,
        };
        assert(fixed@ == compress_message(was));
        history.set(i, fixed);
        i += 1;
    }
}


// ── Summaries ──────────────────────────────────────────────────────────────

/// Concatenation of `f` over `s`.
pub open spec fn flat<T>(s: Seq<T>, f: spec_fn(T) -> Seq<char>) -> Seq<char>
    decreases s.len(),
{
    if s.len() == 0 {
        seq![]
    } else {
        f(s[0]) + flat(s.drop_first(), f)
    }
}

pub proof fn lemma_flat_step<T>(s: Seq<T>, f: spec_fn(T) -> Seq<char>, i: int)
    requires
        0 <= i < s.len(),
    ensures
        flat(s.skip(i), f) == f(s[i]) + flat(s.skip(i + 1), f),
{
    assert(s.skip(i).drop_first() =~= s.skip(i + 1));
    assert(s.skip(i)[0] == s[i]);
}

/// A tool result as shown to the summariser: its id and the first 200
/// bytes of its text (cut at a character boundary), `…` when cut.
pub open spec fn fmt_tool_result(tr: ToolResultModel) -> Seq<char> {
    let text = spec_tool_result_text(tr);
    let k = fit_chars(text, 200);
    "ToolResult["@ + tr.id + "]: "@ + text.take(k as int) + (if byte_len(text) > 200 {
        "…"@
    } else {
        seq![]
    }) + "\n"@
}

pub open spec fn fmt_user_part(c: UserModel) -> Seq<char> {
    match c {
        UserModel::Text(t) => "User: "@ + t + "\n"@,
        UserModel::ToolResult(tr) => fmt_tool_result(tr),
        UserModel::Other => seq![],
    }
}

pub open spec fn fmt_assistant_part(c: AssistantModel) -> Seq<char> {
    match c {
        AssistantModel::Text(t) => "Assistant: "@ + t + "\n"@,
        AssistantModel::ToolCall(name, arguments) => "ToolCall: "@ + name + "("@ + arguments
            + ")\n"@,
        AssistantModel::Other => seq![],
    }
}

pub open spec fn user_fmt() -> spec_fn(UserModel) -> Seq<char> {
    |c: UserModel| fmt_user_part(c)
}

pub open spec fn assistant_fmt() -> spec_fn(AssistantModel) -> Seq<char> {
    |c: AssistantModel| fmt_assistant_part(c)
}

/// A message as shown to the summariser.
pub open spec fn fmt_message(m: MessageModel) -> Seq<char> {
    match m {
        MessageModel::User(cs) => flat(cs, user_fmt()),
        MessageModel::Assistant(cs) => flat(cs, assistant_fmt()),
        MessageModel::System(c) => "System: "@ + c + "\n"@,
    }
}

pub open spec fn message_fmt() -> spec_fn(MessageModel) -> Seq<char> {
    |m: MessageModel| fmt_message(m)
}

/// The text given to the summariser: the existing memory (if any), then the
/// messages to fold into it.
pub open spec fn spec_format_for_summary(messages: Seq<MessageModel>, scratchpad: Seq<char>) -> Seq<
    char,
> {
    (if scratchpad.len() > 0 {
        "Previous memory:\n"@ + scratchpad + "\n\nNew turns to incorporate:\n"@
    } else {
        seq![]
    }) + flat(messages, message_fmt())
}

fn format_tool_result(out: &mut Vec<char>, tr: &ToolResult)
    ensures
        final(out)@ == old(out)@ + fmt_tool_result(tr@),
{
    let text = chars_of(extract_tool_result_text(tr).as_str());
    let (k, _) = fit_prefix(&text, 200);
    let total = byte_len_chars(&text);
    push_str(out, "ToolResult[");
    push_str(out, tr.id.as_str());
    push_str(out, "]: ");
    push_all(out, &slice_chars(&text, 0, k));
    if total > 200 {
        push_str(out, "…");
    }
    push_str(out, "\n");
    assert(out@ =~= old(out)@ + fmt_tool_result(tr@));
}

fn format_user(out: &mut Vec<char>, content: &Vec<UserContent>)
    ensures
        final(out)@ == old(out)@ + flat(content@.map_values(|c: UserContent| c@), user_fmt()),
{
    let ghost cs = content@.map_values(|c: UserContent| c@);
    let ghost start = out@;
    let mut i: usize = 0;
    assert(cs.skip(0) =~= cs);
    while i < content.len()
        invariant
            i <= content.len(),
            cs == content@.map_values(|c: UserContent| c@),
            start + flat(cs, user_fmt()) == out@ + flat(cs.skip(i as int), user_fmt()),
        decreases content.len() - i,
    {
        proof {
            lemma_flat_step(cs, user_fmt(), i as int);
        }
        let ghost pre = out@;
        match &content[i] {
            UserContent::Text(t) => {
                push_str(out, "User: ");
                push_str(out, t.as_str());
                push_str(out, "\n");
            },
            UserContent::ToolResult(tr) => {
                format_tool_result(out, tr);
            },
            UserContent::Other => {},
        }
        assert(out@ =~= pre + fmt_user_part(cs[i as int]));
        i += 1;
    }
    assert(cs.skip(i as int) =~= Seq::<UserModel>::empty());
    assert(out@ + Seq::<char>::empty() =~= out@);
}

fn format_assistant(out: &mut Vec<char>, content: &Vec<AssistantContent>)
    ensures
        final(out)@ == old(out)@ + flat(
            content@.map_values(|c: AssistantContent| c@),
            assistant_fmt(),
        ),
{
    let ghost cs = content@.map_values(|c: AssistantContent| c@);
    let ghost start = out@;
    let mut i: usize = 0;
    assert(cs.skip(0) =~= cs);
    while i < content.len()
        invariant
            i <= content.len(),
            cs == content@.map_values(|c: AssistantContent| c@),
            start + flat(cs, assistant_fmt()) == out@ + flat(cs.skip(i as int), assistant_fmt()),
        decreases content.len() - i,
    {
        proof {
            lemma_flat_step(cs, assistant_fmt(), i as int);
        }
        let ghost pre = out@;
        match &content[i] {
            AssistantContent::Text(t) => {
                push_str(out, "Assistant: ");
                push_str(out, t.as_str());
                push_str(out, "\n");
            },
            AssistantContent::ToolCall { name, arguments } => {
                push_str(out, "ToolCall: ");
                push_str(out, name.as_str());
                push_str(out, "(");
                push_str(out, arguments.as_str());
                push_str(out, ")\n");
            },
            AssistantContent::Other => {},
        }
        assert(out@ =~= pre + fmt_assistant_part(cs[i as int]));
        i += 1;
    }
    assert(cs.skip(i as int) =~= Seq::<AssistantModel>::empty());
    assert(out@ + Seq::<char>::empty() =~= out@);
}

/// The text asking for a summary of `messages`, after the existing memory.
pub fn format_for_summary(messages: &Vec<Message>, existing_scratchpad: &str) -> (r: String)
    ensures
        r@ == spec_format_for_summary(messages_view(messages@), existing_scratchpad@),
{
    let ghost ms = messages_view(messages@);
    let mut out: Vec<char> = Vec::new();
    if !existing_scratchpad.is_empty() {
        push_str(&mut out, "Previous memory:\n");
        push_str(&mut out, existing_scratchpad);
        push_str(&mut out, "\n\nNew turns to incorporate:\n");
    }
    let ghost start = out@;
    let mut i: usize = 0;
    assert(ms.skip(0) =~= ms);
    while i < messages.len()
        invariant
            i <= messages.len(),
            ms == messages_view(messages@),
            start + flat(ms, message_fmt()) == out@ + flat(ms.skip(i as int), message_fmt()),
        decreases messages.len() - i,
    {
        proof {
            lemma_flat_step(ms, message_fmt(), i as int);
        }
        let ghost pre = out@;
        match &messages[i] {
            Message::User { content } => {
                format_user(&mut out, content);
            },
            Message::Assistant { content } => {
                format_assistant(&mut out, content);
            },
            Message::System { content } => {
                push_str(&mut out, "System: ");
                push_str(&mut out, content.as_str());
                push_str(&mut out, "\n");
            },
        }
        assert(out@ =~= pre + fmt_message(ms[i as int]));
        i += 1;
    }
    assert(ms.skip(i as int) =~= Seq::<MessageModel>::empty());
    assert(out@ + Seq::<char>::empty() =~= out@);
    assert(out@ =~= spec_format_for_summary(ms, existing_scratchpad@));
    string_of(&out)
}


// ── Compaction ─────────────────────────────────────────────────────────────

/// The slice `[KEEP_FIRST, len - KEEP_LAST)` that compaction summarises and
/// drops, when the history is longer than the kept ends together.
pub open spec fn spec_compaction_range(len: nat) -> Option<(nat, nat)> {
    if len <= KEEP_FIRST + KEEP_LAST {
        None
    } else {
        Some((KEEP_FIRST as nat, (len - KEEP_LAST) as nat))
    }
}

/// The slice of history that compaction would summarise and drop.
pub fn compaction_range(len: usize) -> (r: Option<(usize, usize)>)
    ensures
        match r {
            Some((a, b)) => spec_compaction_range(len as nat) == Some((a as nat, b as nat)),
            None => spec_compaction_range(len as nat) is None,
        },
{
    if len <= KEEP_FIRST + KEEP_LAST {
        None
    } else {
        Some((KEEP_FIRST, len - KEEP_LAST))
    }
}

/// Note put in place of the summary when the summariser could not be reached.
pub const SUMMARY_UNAVAILABLE: &'static str = "(summary unavailable — prior turns dropped)";

/// The summary that compaction stores: the summariser's reply, or the
/// placeholder when there was none.
pub open spec fn effective_summary(summary: Option<String>) -> Seq<char> {
    match summary {
        Some(s) => s@,
        None => SUMMARY_UNAVAILABLE@,
    }
}

/// The message that takes the place of the dropped turns.
pub open spec fn summary_message(summary: Seq<char>) -> MessageModel {
    MessageModel::User(seq![UserModel::Text("[Conversation summary]\n"@ + summary)])
}

/// History after compaction: the first `KEEP_FIRST` messages, the summary
/// message, and the last `KEEP_LAST` messages.
pub open spec fn spec_compacted(h: Seq<MessageModel>, summary: Seq<char>) -> Seq<MessageModel> {
    h.take(KEEP_FIRST as int).push(summary_message(summary)) + h.skip(h.len() - KEEP_LAST)
}

/// The text to hand the summariser for compaction, or `None` when the
/// history is too short to compact.
pub fn summary_request(history: &Vec<Message>, scratchpad: &str) -> (r: Option<String>)
    ensures
        match spec_compaction_range(history@.len()) {
            None => r is None,
            Some((a, b)) => r matches Some(t) && t@ == spec_format_for_summary(
                messages_view(history@).subrange(a as int, b as int),
                scratchpad@,
            ),
        },
{
    if history.len() <= KEEP_FIRST + KEEP_LAST {
        return None;
    }
    let drop_end = history.len() - KEEP_LAST;
    let mut middle: Vec<Message> = Vec::new();
    let mut i: usize = KEEP_FIRST;
    while i < drop_end
        invariant
            KEEP_FIRST <= i <= drop_end,
            drop_end == history@.len() - KEEP_LAST,
            middle@.len() == i - KEEP_FIRST,
            forall|j: int| 0 <= j < middle@.len() ==> #[trigger] middle@[j]@ == history@[j + KEEP_FIRST]@,
        decreases drop_end - i,
    {
        middle.push(copy_message(&history[i]));
        i += 1;
    }
    assert(messages_view(middle@) =~= messages_view(history@).subrange(KEEP_FIRST as int, drop_end as int));
    Some(format_for_summary(&middle, scratchpad))
}

/// Sliding-window compaction with a summary of the dropped middle.
///
/// Keeps `history[..KEEP_FIRST]` and `history[len-KEEP_LAST..]` intact; the
/// middle is replaced by one message holding the summary (the placeholder
/// when `summary` is `None`), which is also stored in `scratchpad` for
/// later requests.  Returns `true` if compaction was performed; a history
/// too short to compact is left as it is.
pub fn compact_with_summary(
    history: &mut Vec<Message>,
    scratchpad: &mut String,
    summary: Option<String>,
) -> (done: bool)
    ensures
        done == (spec_compaction_range(old(history)@.len()) is Some),
        done ==> messages_view(final(history)@) == spec_compacted(
            messages_view(old(history)@),
            effective_summary(summary),
        ),
        done ==> final(scratchpad)@ == effective_summary(summary),
        !done ==> final(history)@ == old(history)@,
        !done ==> final(scratchpad)@ == old(scratchpad)@,
{
    if history.len() <= KEEP_FIRST + KEEP_LAST {
        return false;
    }
    let ghost h0 = messages_view(history@);
    let summary = match summary {
        Some(s) => s,
        None => SUMMARY_UNAVAILABLE.to_string(),
    };
    proof {
        reveal_strlit("(summary unavailable — prior turns dropped)");
    }
    let drop_end = history.len() - KEEP_LAST;
    let mut tail = history.split_off(drop_end);
    history.truncate(KEEP_FIRST);
    let mut text: Vec<char> = Vec::new();
    push_str(&mut text, "[Conversation summary]\n");
    push_str(&mut text, summary.as_str());
    history.push(user_text(string_of(&text)));
    history.append(&mut tail);
    assert(messages_view(history@) =~= spec_compacted(h0, summary@));
    *scratchpad = summary;
    true
}

/// Compaction keeps the first `KEEP_FIRST` and the last `KEEP_LAST` messages
/// as they were, puts the summary message between them, and leaves a
/// history of `KEEP_FIRST + 1 + KEEP_LAST` messages.
pub proof fn lemma_compaction_keeps_ends(h: Seq<MessageModel>, summary: Seq<char>)
    requires
        spec_compaction_range(h.len()) is Some,
    ensures
        spec_compacted(h, summary).len() == KEEP_FIRST + 1 + KEEP_LAST,
        spec_compacted(h, summary).take(KEEP_FIRST as int) == h.take(KEEP_FIRST as int),
        spec_compacted(h, summary)[KEEP_FIRST as int] == summary_message(summary),
        spec_compacted(h, summary).skip(KEEP_FIRST + 1) == h.skip(h.len() - KEEP_LAST),
{
    let c = spec_compacted(h, summary);
    assert(c.take(KEEP_FIRST as int) =~= h.take(KEEP_FIRST as int));
    assert(c.skip(KEEP_FIRST + 1) =~= h.skip(h.len() - KEEP_LAST));
}

/// After a compaction with a non-empty summary, the next request carries
/// that summary as session memory in front of the compacted history.
pub proof fn lemma_compaction_feeds_memory(h: Seq<MessageModel>, summary: Seq<char>)
    requires
        spec_compaction_range(h.len()) is Some,
        summary.len() > 0,
    ensures
        spec_effective_history(spec_compacted(h, summary), summary) == seq![
            MessageModel::User(seq![UserModel::Text("[Session Memory]\n"@ + summary)]),
        ] + spec_compacted(h, summary),
{
}

// ── Copies ─────────────────────────────────────────────────────────────────

fn copy_tool_result(tr: &ToolResult) -> (r: ToolResult)
    ensures
        r@ == tr@,
{
    let mut content: Vec<ToolResultContent> = Vec::new();
    let mut i: usize = 0;
    while i < tr.content.len()
        invariant
            i <= tr.content.len(),
            content@.len() == i,
            forall|j: int| 0 <= j < i ==> #[trigger] content@[j]@ == tr.content@[j]@,
        decreases tr.content.len() - i,
    {
        let c = match &tr.content[i] {
            ToolResultContent::Text(t) => ToolResultContent::Text(t.clone()),
            ToolResultContent::Other => ToolResultContent::Other,
        };
        content.push(c);
        i += 1;
    }
    assert(content@.map_values(|c: ToolResultContent| c@) =~= tr.content@.map_values(
        |c: ToolResultContent| c@,
    ));
    ToolResult { id: tr.id.clone(), content }
}

/// A copy of a message, equal to it in every part.
pub fn copy_message(m: &Message) -> (r: Message)
    ensures
        r@ == m@,
{
    match m {
        Message::User { content } => {
            let mut out: Vec<UserContent> = Vec::new();
            let mut i: usize = 0;
            while i < content.len()
                invariant
                    i <= content.len(),
                    out@.len() == i,
                    forall|j: int| 0 <= j < i ==> #[trigger] out@[j]@ == content@[j]@,
                decreases content.len() - i,
            {
                let c = match &content[i] {
                    UserContent::Text(t) => UserContent::Text(t.clone()),
                    UserContent::ToolResult(tr) => UserContent::ToolResult(copy_tool_result(tr)),
                    UserContent::Other => UserContent::Other,
                };
                out.push(c);
                i += 1;
            }
            assert(out@.map_values(|c: UserContent| c@) =~= content@.map_values(
                |c: UserContent| c@,
            ));
            Message::User { content: out }
        },
        Message::Assistant { content } => {
            let mut out: Vec<AssistantContent> = Vec::new();
            let mut i: usize = 0;
            while i < content.len()
                invariant
                    i <= content.len(),
                    out@.len() == i,
                    forall|j: int| 0 <= j < i ==> #[trigger] out@[j]@ == content@[j]@,
                decreases content.len() - i,
            {
                let c = match &content[i] {
                    AssistantContent::Text(t) => AssistantContent::Text(t.clone()),
                    AssistantContent::ToolCall { name, arguments } => AssistantContent::ToolCall {
                        name: name.clone(),
                        arguments: arguments.clone(),
                    },
                    AssistantContent::Other => AssistantContent::Other,
                };
                out.push(c);
                i += 1;
            }
            assert(out@.map_values(|c: AssistantContent| c@) =~= content@.map_values(
                |c: AssistantContent| c@,
            ));
            Message::Assistant { content: out }
        },
        Message::System { content } => Message::System { content: content.clone() },
    }
}

/// The history sent with a request: the session memory as a leading user
/// message when there is any, then the history itself.
pub open spec fn spec_effective_history(h: Seq<MessageModel>, scratchpad: Seq<char>) -> Seq<
    MessageModel,
> {
    if scratchpad.len() == 0 {
        h
    } else {
        seq![MessageModel::User(seq![UserModel::Text("[Session Memory]\n"@ + scratchpad)])] + h
    }
}

/// Prepend the scratchpad as a message when there is one, leaving `history`
/// itself clean.
pub fn build_effective_history(history: &Vec<Message>, scratchpad: &str) -> (r: Vec<Message>)
    ensures
        messages_view(r@) == spec_effective_history(messages_view(history@), scratchpad@),
{
    let mut out: Vec<Message> = Vec::new();
    if !scratchpad.is_empty() {
        let mut text: Vec<char> = Vec::new();
        push_str(&mut text, "[Session Memory]\n");
        push_str(&mut text, scratchpad);
        out.push(user_text(string_of(&text)));
    }
    let ghost start = messages_view(out@);
    let mut i: usize = 0;
    while i < history.len()
        invariant
            i <= history.len(),
            out@.len() == start.len() + i,
            forall|j: int| 0 <= j < start.len() ==> #[trigger] out@[j]@ == start[j],
            forall|j: int| 0 <= j < i ==> #[trigger] out@[j + start.len()]@ == history@[j]@,
        decreases history.len() - i,
    {
        out.push(copy_message(&history[i]));
        i += 1;
    }
    assert forall|k: int| 0 <= k < out@.len() implies messages_view(out@)[k] == (start
        + messages_view(history@))[k] by {
        if k >= start.len() {
            let j = k - start.len();
            assert(out@[j + start.len()]@ == history@[j]@);
        }
    }
    assert(messages_view(out@) =~= start + messages_view(history@));
    out
}

} // verus!
