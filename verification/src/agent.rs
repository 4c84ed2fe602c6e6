//! The agent's decisions: token accounting, AGENTS.md rules, model
//! selection, and the parsing of the streamed response into visible text,
//! reasoning and tool-call markup.
use crate::text::{
    lines, lowercase, lowercase_chars, starts_with, trim, trim_end, chars_of, find, find_chars,
    lead_len, lemma_deep_view_chars, lemma_find_from, lemma_lead_len, lemma_lead_len_step,
    lemma_trail_len, lemma_trail_len_step, occurs_at, slice_chars, string_of, trail_len, byte_len,
    byte_len_chars, lemma_byte_len_concat,
};
use vstd::prelude::*;

verus! {

pub const TOOL_CALL_TAG: &'static str = "<tool_call>";

pub const THINK_OPEN: &'static str = "<think>";

pub const THINK_CLOSE: &'static str = "</think>";

// ── Tag scanning ───────────────────────────────────────────────────────────

/// The longest suffix of `text` that is a non-empty prefix of `needle`,
/// searching lengths from `len` down.
pub open spec fn spec_suffix_prefix_from(text: Seq<char>, needle: Seq<char>, len: int) -> nat
    decreases len,
{
    if len <= 0 {
        0
    } else if occurs_at(text, needle.take(len), text.len() - len) {
        len as nat
    } else {
        spec_suffix_prefix_from(text, needle, len - 1)
    }
}

/// Length of the longest suffix of `text` that is a prefix of `needle`.
pub open spec fn spec_suffix_prefix_len(text: Seq<char>, needle: Seq<char>) -> nat {
    spec_suffix_prefix_from(
        text,
        needle,
        if needle.len() < text.len() {
            needle.len() as int
        } else {
            text.len() as int
        },
    )
}

pub open spec fn is_ascii_seq(s: Seq<char>) -> bool {
    forall|i: int| 0 <= i < s.len() ==> (s[i] as u32) < 128
}

/// Return the length of the longest suffix of `text` that is a prefix of
/// `needle` (`needle` is ASCII, so lengths in characters and in bytes agree).
pub fn suffix_prefix_len(text: &str, needle: &str) -> (r: usize)
    requires
        is_ascii_seq(needle@),
    ensures
        r == spec_suffix_prefix_len(text@, needle@),
{
    let t = chars_of(text);
    let n = chars_of(needle);
    suffix_prefix_len_chars(&t, &n)
}

pub fn suffix_prefix_len_chars(t: &Vec<char>, n: &Vec<char>) -> (r: usize)
    ensures
        r == spec_suffix_prefix_len(t@, n@),
        r <= t.len(),
        r <= n.len(),
{
    let mut len = if n.len() < t.len() {
        n.len()
    } else {
        t.len()
    };
    while len > 0
        invariant
            len <= t.len(),
            len <= n.len(),
            spec_suffix_prefix_len(t@, n@) == spec_suffix_prefix_from(t@, n@, len as int),
        decreases len,
    {
        let p = slice_chars(n, 0, len);
        assert(p@ =~= n@.take(len as int));
        if crate::text::matches_at(t, t.len() - len, &p) {
            return len;
        }
        len -= 1;
    }
    0
}

/// Characters allowed in a tool tag name: `[a-z0-9_]`.
pub open spec fn is_tag_char(c: char) -> bool {
    ('a' <= c && c <= 'z') || c == '_' || ('0' <= c && c <= '9')
}

pub open spec fn tag_char() -> spec_fn(char) -> bool {
    |c: char| is_tag_char(c)
}

fn tag_char_exec(c: char) -> (b: bool)
    ensures
        b == is_tag_char(c),
{
    ('a' <= c && c <= 'z') || c == '_' || ('0' <= c && c <= '9')
}

/// Length of the tag name that starts at `i + 1`.
pub open spec fn tag_name_len(s: Seq<char>, i: int) -> nat {
    lead_len(s.subrange(i + 1, s.len() as int), tag_char())
}

/// A snake_case tool tag `<name>` with a name of at least two characters
/// opens at index `i`.
pub open spec fn tool_open_at(s: Seq<char>, i: int) -> bool {
    &&& 0 <= i < s.len()
    &&& s[i] == '<'
    &&& tag_name_len(s, i) >= 2
    &&& i + 1 + tag_name_len(s, i) < s.len()
    &&& s[i + 1 + tag_name_len(s, i)] == '>'
}

/// The first tool tag at index `i` or later, as `(start, end)` where `end`
/// is just past its closing `>`.
pub open spec fn tool_open_from(s: Seq<char>, i: int) -> Option<(int, int)>
    decreases s.len() - i,
{
    if i < 0 || i >= s.len() {
        None
    } else if tool_open_at(s, i) {
        Some((i, i + 2 + tag_name_len(s, i)))
    } else {
        tool_open_from(s, i + 1)
    }
}

pub open spec fn spec_find_tool_open(s: Seq<char>) -> Option<(int, int)> {
    tool_open_from(s, 0)
}

/// The byte offset in the UTF-8 text `s` of its character index `i`.
pub open spec fn byte_offset(s: Seq<char>, i: int) -> nat {
    byte_len(s.take(i))
}

/// Find the first `<name>` where `name` is at least two characters of
/// `[a-z0-9_]` (a snake_case tool tag).  Returns `(pos, tag_end)`, the byte
/// offsets in `text` of the `<` and of the end of the closing `>`.
pub fn find_tool_open(text: &str) -> (r: Option<(usize, usize)>)
    ensures
        r matches Some((a, b)) ==> spec_find_tool_open(text@) matches Some((i, j)) && a
            == byte_offset(text@, i) && b == byte_offset(text@, j),
        r is None ==> spec_find_tool_open(text@) is None,
{
    let v = chars_of(text);
    match find_tool_open_chars(&v) {
        None => None,
        Some((i, j)) => {
            proof {
                lemma_tool_open_from(v@, 0);
            }
            let total = text.as_bytes().len();
            let a = byte_len_chars(&slice_chars(&v, 0, i));
            let b = byte_len_chars(&slice_chars(&v, 0, j));
            proof {
                assert(v@.subrange(0, i as int) =~= v@.take(i as int));
                assert(v@.subrange(0, j as int) =~= v@.take(j as int));
                assert(v@ =~= v@.take(j as int) + v@.skip(j as int));
                lemma_byte_len_concat(v@.take(j as int), v@.skip(j as int));
                assert(v@.take(j as int) =~= v@.take(i as int) + v@.take(j as int).skip(i as int));
                lemma_byte_len_concat(v@.take(i as int), v@.take(j as int).skip(i as int));
            }
            Some((a as usize, b as usize))
        },
    }
}

pub fn find_tool_open_chars(v: &Vec<char>) -> (r: Option<(usize, usize)>)
    ensures
        r matches Some((a, b)) ==> spec_find_tool_open(v@) == Some((a as int, b as int)),
        r is None ==> spec_find_tool_open(v@) is None,
{
    let mut i: usize = 0;
    while i < v.len()
        invariant
            i <= v.len(),
            spec_find_tool_open(v@) == tool_open_from(v@, i as int),
        decreases v.len() - i,
    {
        if v[i] == '<' {
            let name_start = i + 1;
            let mut j = name_start;
            while j < v.len() && tag_char_exec(v[j])
                invariant
                    name_start <= j <= v.len(),
                    name_start == i + 1,
                    tag_name_len(v@, i as int) == (j - name_start) + lead_len(
                        v@.subrange(j as int, v.len() as int),
                        tag_char(),
                    ),
                decreases v.len() - j,
            {
                proof {
                    lemma_lead_len_step(v@, j as int, v.len() as int, tag_char());
                }
                j += 1;
            }
            proof {
                if j < v.len() {
                    lemma_lead_len_step(v@, j as int, v.len() as int, tag_char());
                }
            }
            let name_len = j - name_start;
            if name_len >= 2 && j < v.len() && v[j] == '>' {
                return Some((i, j + 1));
            }
        }
        i += 1;
    }
    None
}

/// Length of a trailing partial tool tag such as `<to`, `<todo_write` or `<`.
pub open spec fn spec_trailing_tool_tag_len(s: Seq<char>) -> nat {
    let k = trail_len(s, tag_char());
    if k < s.len() && s[s.len() - k - 1] == '<' {
        k + 1
    } else {
        0
    }
}

/// Length of a trailing partial tool open tag like `<to`, `<todo_write`, or `<`.
pub fn trailing_tool_tag_len(text: &str) -> (r: usize)
    ensures
        r == spec_trailing_tool_tag_len(text@),
{
    trailing_tool_tag_len_chars(&chars_of(text))
}

pub fn trailing_tool_tag_len_chars(v: &Vec<char>) -> (r: usize)
    ensures
        r == spec_trailing_tool_tag_len(v@),
        r <= v.len(),
{
    let n = v.len();
    let mut i = n;
    assert(v@.subrange(0, n as int) =~= v@);
    while i > 0 && tag_char_exec(v[i - 1])
        invariant
            i <= n == v.len(),
            trail_len(v@, tag_char()) == (n - i) + trail_len(v@.subrange(0, i as int), tag_char()),
        decreases i,
    {
        proof {
            lemma_trail_len_step(v@, 0, i as int, tag_char());
        }
        i -= 1;
    }
    proof {
        if i > 0 {
            lemma_trail_len_step(v@, 0, i as int, tag_char());
        }
        lemma_trail_len(v@, tag_char());
    }
    if i > 0 && v[i - 1] == '<' {
        n - i + 1
    } else {
        0
    }
}


/// The pieces of `text` in normal streaming mode: the text that is safe to
/// show, what follows, and the tag found (`<think>`, `<tool_call>` for any
/// tool tag, or empty when no complete tag is present; the possible start of
/// a tag at the end is then held back as the second piece).
pub open spec fn spec_scan_normal(s: Seq<char>) -> (Seq<char>, Seq<char>, Seq<char>) {
    let think = find(s, THINK_OPEN@);
    let tool = spec_find_tool_open(s);
    let think_first = match (think, tool) {
        (Some(t), Some((tc, _))) => t <= tc,
        (Some(_), None) => true,
        _ => false,
    };
    if think_first {
        let t = think->0;
        (s.take(t), s.skip(t + THINK_OPEN@.len()), THINK_OPEN@)
    } else if tool is Some {
        let (tc, end) = tool->0;
        (s.take(tc), s.skip(end), TOOL_CALL_TAG@)
    } else {
        let a = spec_suffix_prefix_len(s, THINK_OPEN@);
        let b = spec_trailing_tool_tag_len(s);
        let hold = if a >= b {
            a
        } else {
            b
        };
        (s.take(s.len() - hold), s.skip(s.len() - hold), ""@)
    }
}

/// In normal streaming mode, find the first interesting tag (`<think>` or
/// any snake_case tool tag like `<tool_call>`, `<todo_write>`).
/// Returns `(safe_to_display, rest_after_tag, which_tag)`, or
/// `(safe, tail, "")` if no complete tag is present yet.
pub fn scan_normal(text: &str) -> (r: (String, String, &'static str))
    ensures
        (r.0@, r.1@, r.2@) == spec_scan_normal(text@),
{
    let v = chars_of(text);
    let (a, b, tag) = scan_normal_chars(&v);
    (string_of(&a), string_of(&b), tag.text())
}

/// Which tag `scan_normal` found.
#[derive(Clone, Copy, Debug, PartialEq, Eq)]
pub enum ScanTag {
    NoTag,
    Think,
    ToolCall,
}

impl ScanTag {
    pub open spec fn spec_text(self) -> Seq<char> {
        match self {
            ScanTag::NoTag => ""@,
            ScanTag::Think => THINK_OPEN@,
            ScanTag::ToolCall => TOOL_CALL_TAG@,
        }
    }

    /// The tag as text (empty when none was found).
    pub fn text(self) -> (r: &'static str)
        ensures
            r@ == self.spec_text(),
    {
        match self {
            ScanTag::NoTag => "",
            ScanTag::Think => THINK_OPEN,
            ScanTag::ToolCall => TOOL_CALL_TAG,
        }
    }
}

pub fn scan_normal_chars(v: &Vec<char>) -> (r: (Vec<char>, Vec<char>, ScanTag))
    ensures
        (r.0@, r.1@, r.2.spec_text()) == spec_scan_normal(v@),
{
    let think_v = chars_of(THINK_OPEN);
    let think = find_chars(v, &think_v, 0);
    let tool = find_tool_open_chars(v);
    proof {
        lemma_find_from(v@, think_v@, 0);
        lemma_tool_open_from(v@, 0);
    }
    match think {
        Some(t) => {
            let take_think = match tool {
                Some((tc, _)) => t <= tc,
                None => true,
            };
            if take_think {
                assert(occurs_at(v@, think_v@, t as int));
                let vl = v.len();
                assert(t + think_v@.len() <= vl);
                let after = t + think_v.len();
                return (
                    slice_chars(v, 0, t),
                    slice_chars(v, after, v.len()),
                    ScanTag::Think,
                );
            }
        },
        None => {},
    }
    match tool {
        Some((tc, end)) => {
            return (slice_chars(v, 0, tc), slice_chars(v, end, v.len()), ScanTag::ToolCall);
        },
        None => {},
    }
    let a = suffix_prefix_len_chars(v, &think_v);
    let b = trailing_tool_tag_len_chars(v);
    let hold = if a >= b {
        a
    } else {
        b
    };
    (slice_chars(v, 0, v.len() - hold), slice_chars(v, v.len() - hold, v.len()), ScanTag::NoTag)
}

pub proof fn lemma_tool_open_from(s: Seq<char>, i: int)
    requires
        0 <= i,
    ensures
        tool_open_from(s, i) matches Some((a, b)) ==> i <= a < b <= s.len() && tool_open_at(s, a)
            && b == a + 2 + tag_name_len(s, a),
    decreases s.len() - i,
{
    if i < s.len() && !tool_open_at(s, i) {
        lemma_tool_open_from(s, i + 1);
    }
}


/// The three tags are distinct, and a found tag is never empty.
pub proof fn lemma_tags()
    ensures
        THINK_OPEN@ != TOOL_CALL_TAG@,
        THINK_OPEN@ != ""@,
        TOOL_CALL_TAG@ != ""@,
        THINK_OPEN@.len() == 7,
        THINK_CLOSE@.len() == 8,
        ""@.len() == 0,
{
    reveal_strlit("<think>");
    reveal_strlit("<tool_call>");
    reveal_strlit("</think>");
    reveal_strlit("");
    assert(THINK_OPEN@[2] != TOOL_CALL_TAG@[2]);
    assert(THINK_OPEN@.len() != ""@.len());
    assert(TOOL_CALL_TAG@.len() != ""@.len());
}

/// When `scan_normal` finds a tag, what follows it is shorter than the input,
/// and the safe text, the tag's text and the rest make up the input.
pub proof fn lemma_scan_normal_parts(s: Seq<char>)
    ensures
        spec_scan_normal(s).2 == THINK_OPEN@ || spec_scan_normal(s).2 == TOOL_CALL_TAG@
            || spec_scan_normal(s).2 == ""@,
        spec_scan_normal(s).2 != ""@ ==> spec_scan_normal(s).1.len() < s.len(),
        spec_scan_normal(s).2 == ""@ ==> spec_scan_normal(s).0 + spec_scan_normal(s).1 == s,
        spec_scan_normal(s).2 == THINK_OPEN@ ==> spec_scan_normal(s).0 + THINK_OPEN@
            + spec_scan_normal(s).1 == s,
{
    lemma_tags();
    lemma_find_from(s, THINK_OPEN@, 0);
    lemma_tool_open_from(s, 0);
    let (a, b, tag) = spec_scan_normal(s);
    if tag == THINK_OPEN@ {
        let t = find(s, THINK_OPEN@)->0;
        assert(s.subrange(t, t + 7) == THINK_OPEN@);
        assert(a + THINK_OPEN@ + b =~= s);
    } else if tag == ""@ {
        lemma_trail_len(s, tag_char());
        lemma_suffix_prefix_bound(s, THINK_OPEN@, if THINK_OPEN@.len() < s.len() {
            THINK_OPEN@.len() as int
        } else {
            s.len() as int
        });
        assert(a + b =~= s);
    }
}


pub proof fn lemma_suffix_prefix_bound(text: Seq<char>, needle: Seq<char>, len: int)
    ensures
        spec_suffix_prefix_from(text, needle, len) <= if len < 0 {
            0
        } else {
            len
        },
    decreases len,
{
    if len > 0 {
        lemma_suffix_prefix_bound(text, needle, len - 1);
    }
}


// ── Stream state machine ───────────────────────────────────────────────────

/// Where the streaming parser is.
pub enum StreamState {
    /// Streaming normal text; `tail` is held back while we confirm it is not
    /// the start of `<think>` or a tool tag.
    Streaming { tail: String },
    /// Inside `<think>…</think>`; `tail` guards against a partial `</think>`
    /// at the end of a chunk.
    InThink { tail: String },
    /// Tool-call markup or a structured tool call arrived: text is discarded
    /// until the next tool result.
    InToolCall,
}

/// The model of a `StreamState`.
pub enum StateModel {
    Streaming(Seq<char>),
    InThink(Seq<char>),
    InToolCall,
}

impl View for StreamState {
    type V = StateModel;

    open spec fn view(&self) -> StateModel {
        match self {
            StreamState::Streaming { tail } => StateModel::Streaming(tail@),
            StreamState::InThink { tail } => StateModel::InThink(tail@),
            StreamState::InToolCall => StateModel::InToolCall,
        }
    }
}

/// What the driver must do in response to a piece of the stream.
pub enum StreamAction {
    /// Show the text as part of the response and accumulate it.
    Emit(String),
    /// Feed the text to the thinking printer.
    Think(String),
    /// Close the thinking printer's block.
    ThinkEnd,
    /// Add the text to the trajectory's thinking buffer.
    RecordThinking(String),
    /// Flush the trajectory's thinking buffer as a span.
    RecordThinkingEnd,
}

pub enum ActionModel {
    Emit(Seq<char>),
    Think(Seq<char>),
    ThinkEnd,
    RecordThinking(Seq<char>),
    RecordThinkingEnd,
}

impl View for StreamAction {
    type V = ActionModel;

    open spec fn view(&self) -> ActionModel {
        match self {
            StreamAction::Emit(t) => ActionModel::Emit(t@),
            StreamAction::Think(t) => ActionModel::Think(t@),
            StreamAction::ThinkEnd => ActionModel::ThinkEnd,
            StreamAction::RecordThinking(t) => ActionModel::RecordThinking(t@),
            StreamAction::RecordThinkingEnd => ActionModel::RecordThinkingEnd,
        }
    }
}

pub open spec fn action_views(v: Seq<StreamAction>) -> Seq<ActionModel> {
    v.map_values(|a: StreamAction| a@)
}

pub open spec fn state_measure(st: StateModel, rem: Seq<char>) -> nat {
    match st {
        StateModel::Streaming(t) => t.len() + rem.len(),
        StateModel::InThink(t) => t.len() + rem.len(),
        StateModel::InToolCall => rem.len(),
    }
}

/// `r` preceded by the actions `pre`.
pub open spec fn then_actions(pre: Seq<ActionModel>, r: (StateModel, Seq<ActionModel>)) -> (
    StateModel,
    Seq<ActionModel>,
) {
    (r.0, pre + r.1)
}

pub open spec fn think_if(thinking: bool, t: Seq<char>) -> Seq<ActionModel> {
    if thinking {
        seq![ActionModel::Think(t)]
    } else {
        seq![]
    }
}

/// The effect of a chunk of response text `rem` in state `st`: the new state
/// and the actions, in order.  A state change in the middle of the chunk
/// (e.g. `</think>` followed by normal text) continues with the rest.
pub open spec fn text_step(st: StateModel, rem: Seq<char>, thinking: bool) -> (
    StateModel,
    Seq<ActionModel>,
)
    decreases state_measure(st, rem),
{
    if rem.len() == 0 {
        (st, seq![])
    } else {
        match st {
            StateModel::Streaming(tail) => {
                let c = tail + rem;
                let (safe, rest, tag) = spec_scan_normal(c);
                let shown = if safe.len() > 0 {
                    seq![ActionModel::Emit(safe)]
                } else {
                    seq![]
                };
                proof {
                    lemma_scan_normal_parts(c);
                    lemma_tags();
                }
                if tag == THINK_OPEN@ {
                    let (s2, a2) = text_step(StateModel::InThink(seq![]), rest, thinking);
                    (s2, shown + a2)
                } else if tag == TOOL_CALL_TAG@ {
                    (StateModel::InToolCall, shown)
                } else {
                    (StateModel::Streaming(rest), shown)
                }
            },
            StateModel::InThink(tail) => {
                let c = tail + rem;
                proof {
                    lemma_find_from(c, THINK_CLOSE@, 0);
                    lemma_tags();
                }
                if find(c, THINK_CLOSE@) is Some {
                    let pos = find(c, THINK_CLOSE@)->0;
                    let (s2, a2) = text_step(
                        StateModel::Streaming(seq![]),
                        c.skip(pos + THINK_CLOSE@.len()),
                        thinking,
                    );
                    (s2, think_if(thinking, c.take(pos)).push(ActionModel::ThinkEnd) + a2)
                } else {
                    let hold = spec_suffix_prefix_len(c, THINK_CLOSE@);
                    (
                        StateModel::InThink(c.skip(c.len() - hold)),
                        think_if(thinking, c.take(c.len() - hold)),
                    )
                }
            },
            StateModel::InToolCall => (st, seq![]),
        }
    }
}

fn push_action(actions: &mut Vec<StreamAction>, a: StreamAction)
    ensures
        action_views(final(actions)@) == action_views(old(actions)@).push(a@),
{
    let ghost pre = actions@;
    actions.push(a);
    assert(action_views(actions@) =~= action_views(pre).push(a@));
}

/// One step of `text_step` from `Streaming { tail }` on non-empty text.
fn streaming_step(tail: &String, remaining: &Vec<char>, thinking: bool) -> (r: (
    StreamState,
    Vec<char>,
    Vec<StreamAction>,
))
    requires
        remaining.len() > 0,
    ensures
        text_step(StateModel::Streaming(tail@), remaining@, thinking) == then_actions(
            action_views(r.2@),
            text_step(r.0@, r.1@, thinking),
        ),
        r.1@.len() > 0 ==> state_measure(r.0@, r.1@) < tail@.len() + remaining@.len(),
{
    let mut combined = chars_of(tail.as_str());
    crate::text::push_all(&mut combined, remaining);
    proof {
        lemma_scan_normal_parts(combined@);
        lemma_tags();
    }
    let (safe, rest, tag) = scan_normal_chars(&combined);
    let mut actions: Vec<StreamAction> = Vec::new();
    if safe.len() > 0 {
        push_action(&mut actions, StreamAction::Emit(string_of(&safe)));
    }
    assert(action_views(actions@) =~= (if safe@.len() > 0 {
        seq![ActionModel::Emit(safe@)]
    } else {
        seq![]
    }));
    match tag {
        ScanTag::Think => (StreamState::InThink { tail: String::new() }, rest, actions),
        ScanTag::ToolCall => {
            assert(action_views(actions@) + Seq::<ActionModel>::empty() =~= action_views(
                actions@,
            ));
            (StreamState::InToolCall, Vec::new(), actions)
        },
        ScanTag::NoTag => {
            assert(action_views(actions@) + Seq::<ActionModel>::empty() =~= action_views(
                actions@,
            ));
            (StreamState::Streaming { tail: string_of(&rest) }, Vec::new(), actions)
        },
    }
}

/// One step of `text_step` from `InThink { tail }` on non-empty text.
fn think_step(tail: &String, remaining: &Vec<char>, thinking: bool) -> (r: (
    StreamState,
    Vec<char>,
    Vec<StreamAction>,
))
    requires
        remaining.len() > 0,
    ensures
        text_step(StateModel::InThink(tail@), remaining@, thinking) == then_actions(
            action_views(r.2@),
            text_step(r.0@, r.1@, thinking),
        ),
        r.1@.len() > 0 ==> state_measure(r.0@, r.1@) < tail@.len() + remaining@.len(),
{
    let close_v = chars_of(THINK_CLOSE);
    let mut combined = chars_of(tail.as_str());
    crate::text::push_all(&mut combined, remaining);
    proof {
        lemma_find_from(combined@, THINK_CLOSE@, 0);
        lemma_tags();
    }
    let mut actions: Vec<StreamAction> = Vec::new();
    let cl = combined.len();
    match find_chars(&combined, &close_v, 0) {
        Some(pos) => {
            assert(occurs_at(combined@, close_v@, pos as int));
            assert(pos + close_v@.len() <= cl);
            if thinking {
                push_action(
                    &mut actions,
                    StreamAction::Think(string_of(&slice_chars(&combined, 0, pos))),
                );
            }
            push_action(&mut actions, StreamAction::ThinkEnd);
            let after = pos + close_v.len();
            assert(action_views(actions@) =~= think_if(thinking, combined@.take(pos as int)).push(
                ActionModel::ThinkEnd,
            ));
            (
                StreamState::Streaming { tail: String::new() },
                slice_chars(&combined, after, cl),
                actions,
            )
        },
        None => {
            let hold = suffix_prefix_len_chars(&combined, &close_v);
            if thinking {
                push_action(
                    &mut actions,
                    StreamAction::Think(string_of(&slice_chars(&combined, 0, cl - hold))),
                );
            }
            assert(action_views(actions@) =~= think_if(thinking, combined@.take(cl - hold)));
            assert(action_views(actions@) + Seq::<ActionModel>::empty() =~= action_views(
                actions@,
            ));
            (
                StreamState::InThink { tail: string_of(&slice_chars(&combined, cl - hold, cl)) },
                Vec::new(),
                actions,
            )
        },
    }
}

/// Process one chunk of response text: returns the new state and the actions
/// to perform, in order.
pub fn on_text(state: StreamState, chunk: &str, thinking: bool) -> (r: (
    StreamState,
    Vec<StreamAction>,
))
    ensures
        r.0@ == text_step(state@, chunk@, thinking).0,
        action_views(r.1@) == text_step(state@, chunk@, thinking).1,
{
    run_text(state, chars_of(chunk), thinking)
}

fn run_text(state: StreamState, remaining: Vec<char>, thinking: bool) -> (r: (
    StreamState,
    Vec<StreamAction>,
))
    ensures
        r.0@ == text_step(state@, remaining@, thinking).0,
        action_views(r.1@) == text_step(state@, remaining@, thinking).1,
    decreases state_measure(state@, remaining@),
{
    let ghost st = state@;
    let ghost empty = Seq::<ActionModel>::empty();
    let none: Vec<StreamAction> = Vec::new();
    assert(action_views(none@) =~= empty);
    if remaining.len() == 0 {
        return (state, none);
    }
    let step = match &state {
        StreamState::Streaming { tail } => streaming_step(tail, &remaining, thinking),
        StreamState::InThink { tail } => think_step(tail, &remaining, thinking),
        StreamState::InToolCall => {
            return (state, none);
        },
    };
    let (s2, rem2, mut acts) = step;
    let ghost added = action_views(acts@);
    assert(text_step(st, remaining@, thinking) == then_actions(added, text_step(s2@, rem2@, thinking)));
    if rem2.len() == 0 {
        assert(added + empty =~= added);
        return (s2, acts);
    }
    let (s3, mut more) = run_text(s2, rem2, thinking);
    let ghost more_v = action_views(more@);
    acts.append(&mut more);
    assert(action_views(acts@) =~= added + more_v);
    (s3, acts)
}


/// A structured tool call (or a delta of one) arrived: the markup text that
/// may follow is discarded until the tool result.
pub fn on_tool_call() -> (r: StreamState)
    ensures
        r@ == StateModel::InToolCall,
{
    StreamState::InToolCall
}

/// A tool result was consumed: streaming of normal text resumes.
pub fn on_tool_result() -> (r: StreamState)
    ensures
        r@ == StateModel::Streaming(seq![]),
{
    StreamState::Streaming { tail: String::new() }
}

/// A delta of the model's reasoning: recorded, and shown when `thinking`.
pub fn on_reasoning_delta(reasoning: &str, thinking: bool) -> (r: Vec<StreamAction>)
    ensures
        action_views(r@) == seq![ActionModel::RecordThinking(reasoning@)] + think_if(
            thinking,
            reasoning@,
        ),
{
    let mut r: Vec<StreamAction> = Vec::new();
    push_action(&mut r, StreamAction::RecordThinking(string_of(&chars_of(reasoning))));
    if thinking {
        push_action(&mut r, StreamAction::Think(string_of(&chars_of(reasoning))));
    }
    assert(action_views(r@) =~= seq![ActionModel::RecordThinking(reasoning@)] + think_if(
        thinking,
        reasoning@,
    ));
    r
}

/// A complete reasoning block: recorded as one span, and shown (then closed)
/// when `thinking`.
pub fn on_reasoning(text: &str, thinking: bool) -> (r: Vec<StreamAction>)
    ensures
        action_views(r@) == seq![ActionModel::RecordThinking(text@), ActionModel::RecordThinkingEnd]
            + (if thinking {
            seq![ActionModel::Think(text@), ActionModel::ThinkEnd]
        } else {
            seq![]
        }),
{
    let mut r: Vec<StreamAction> = Vec::new();
    push_action(&mut r, StreamAction::RecordThinking(string_of(&chars_of(text))));
    push_action(&mut r, StreamAction::RecordThinkingEnd);
    if thinking {
        push_action(&mut r, StreamAction::Think(string_of(&chars_of(text))));
        push_action(&mut r, StreamAction::ThinkEnd);
    }
    assert(action_views(r@) =~= seq![
        ActionModel::RecordThinking(text@),
        ActionModel::RecordThinkingEnd,
    ] + (if thinking {
        seq![ActionModel::Think(text@), ActionModel::ThinkEnd]
    } else {
        seq![]
    }));
    r
}

/// What the final response flushes from the state: held-back text is shown;
/// an unterminated reasoning block is recorded (and shown when `thinking`)
/// and closed.
pub open spec fn final_flush(st: StateModel, thinking: bool) -> Seq<ActionModel> {
    match st {
        StateModel::Streaming(tail) => if tail.len() > 0 {
            seq![ActionModel::Emit(tail)]
        } else {
            seq![]
        },
        StateModel::InThink(tail) => (if thinking && tail.len() > 0 {
            seq![ActionModel::RecordThinking(tail), ActionModel::Think(tail)]
        } else {
            seq![]
        }) + seq![ActionModel::RecordThinkingEnd, ActionModel::ThinkEnd],
        StateModel::InToolCall => seq![],
    }
}

/// The actions that flush pending text when the final response arrives.
pub fn on_final(state: &StreamState, thinking: bool) -> (r: Vec<StreamAction>)
    ensures
        action_views(r@) == final_flush(state@, thinking),
{
    let mut r: Vec<StreamAction> = Vec::new();
    match state {
        StreamState::Streaming { tail } => {
            if !tail.as_str().is_empty() {
                push_action(&mut r, StreamAction::Emit(string_of(&chars_of(tail.as_str()))));
            }
            assert(action_views(r@) =~= final_flush(state@, thinking));
        },
        StreamState::InThink { tail } => {
            if thinking && !tail.as_str().is_empty() {
                push_action(
                    &mut r,
                    StreamAction::RecordThinking(string_of(&chars_of(tail.as_str()))),
                );
                push_action(&mut r, StreamAction::Think(string_of(&chars_of(tail.as_str()))));
            }
            push_action(&mut r, StreamAction::RecordThinkingEnd);
            push_action(&mut r, StreamAction::ThinkEnd);
            assert(action_views(r@) =~= final_flush(state@, thinking));
        },
        StreamState::InToolCall => {
            assert(action_views(r@) =~= final_flush(state@, thinking));
        },
    }
    r
}


// ── Thinking printer ───────────────────────────────────────────────────────

/// `s.split('\n')`: the pieces between newlines (never empty as a list).
pub open spec fn split_nl(s: Seq<char>) -> Seq<Seq<char>>
    decreases s.len(),
{
    let k = lead_len(s, not_nl());
    if k >= s.len() {
        seq![s]
    } else {
        seq![s.take(k as int)] + split_nl(s.skip((k + 1) as int))
    }
}

pub open spec fn not_nl() -> spec_fn(char) -> bool {
    |c: char| c != '\n'
}

/// What the thinking printer puts on the terminal.
pub enum ThinkOut {
    /// The header of a thinking block.
    Start,
    /// The `│ ` border at the start of a line.
    Prefix,
    /// Raw text.
    Chunk(String),
}

pub enum ThinkOutModel {
    Start,
    Prefix,
    Chunk(Seq<char>),
}

impl View for ThinkOut {
    type V = ThinkOutModel;

    open spec fn view(&self) -> ThinkOutModel {
        match self {
            ThinkOut::Start => ThinkOutModel::Start,
            ThinkOut::Prefix => ThinkOutModel::Prefix,
            ThinkOut::Chunk(t) => ThinkOutModel::Chunk(t@),
        }
    }
}

pub open spec fn out_views(v: Seq<ThinkOut>) -> Seq<ThinkOutModel> {
    v.map_values(|o: ThinkOut| o@)
}

/// Output for the pieces after the first: a newline before each, and the
/// border plus the piece when it is not empty.
pub open spec fn later_parts_out(parts: Seq<Seq<char>>) -> Seq<ThinkOutModel>
    decreases parts.len(),
{
    if parts.len() == 0 {
        seq![]
    } else {
        seq![ThinkOutModel::Chunk(seq!['\n'])] + (if parts[0].len() > 0 {
            seq![ThinkOutModel::Prefix, ThinkOutModel::Chunk(parts[0])]
        } else {
            seq![]
        }) + later_parts_out(parts.drop_first())
    }
}

/// Streams reasoning text with a `│ ` border on every line.  Chunks are
/// passed on at once, with no buffering of whole lines.
pub struct ThinkingPrinter {
    pub started: bool,
    pub at_line_start: bool,
}

/// Output of `feed` for the state `(started, at_line_start)` and a chunk,
/// with the state afterwards.
pub open spec fn spec_feed(started: bool, at_line_start: bool, chunk: Seq<char>) -> (
    bool,
    bool,
    Seq<ThinkOutModel>,
) {
    if chunk.len() == 0 {
        (started, at_line_start, seq![])
    } else {
        let parts = split_nl(chunk);
        let first = parts[0];
        let rest = parts.drop_first();
        let header = if started {
            seq![]
        } else {
            seq![ThinkOutModel::Start]
        };
        let first_out = if first.len() > 0 {
            (if at_line_start {
                seq![ThinkOutModel::Prefix]
            } else {
                seq![]
            }) + seq![ThinkOutModel::Chunk(first)]
        } else {
            seq![]
        };
        let als = if rest.len() > 0 {
            rest.last().len() == 0
        } else if first.len() > 0 {
            false
        } else {
            at_line_start
        };
        (true, als, header + first_out + later_parts_out(rest))
    }
}

impl ThinkingPrinter {
    pub fn new() -> (p: Self)
        ensures
            !p.started,
            p.at_line_start,
    {
        ThinkingPrinter { started: false, at_line_start: true }
    }

    /// The output for a chunk of reasoning text.
    pub fn feed(&mut self, chunk: &str) -> (out: Vec<ThinkOut>)
        ensures
            final(self).started == spec_feed(old(self).started, old(self).at_line_start, chunk@).0,
            final(self).at_line_start == spec_feed(
                old(self).started,
                old(self).at_line_start,
                chunk@,
            ).1,
            out_views(out@) == spec_feed(old(self).started, old(self).at_line_start, chunk@).2,
    {
        let v = chars_of(chunk);
        let mut out: Vec<ThinkOut> = Vec::new();
        if v.len() == 0 {
            assert(out_views(out@) =~= Seq::<ThinkOutModel>::empty());
            return out;
        }
        if !self.started {
            out.push(ThinkOut::Start);
            self.started = true;
        }
        let parts = split_on_newline(&v);
        proof {
            lemma_deep_view_chars(&parts[0]);
        }
        let ghost header = out_views(out@);
        if parts[0].len() > 0 {
            if self.at_line_start {
                out.push(ThinkOut::Prefix);
                self.at_line_start = false;
            }
            out.push(ThinkOut::Chunk(string_of(&parts[0])));
        }
        let ghost first_out = out_views(out@).skip(header.len() as int);
        let ghost als1 = self.at_line_start;
        assert(out_views(out@) =~= header + first_out);
        let ghost rest = parts.deep_view().drop_first();
        let mut i: usize = 1;
        assert(parts.deep_view().skip(1) =~= rest);
        while i < parts.len()
            invariant
                1 <= i <= parts.len(),
                rest == parts.deep_view().drop_first(),
                out_views(out@) + later_parts_out(parts.deep_view().skip(i as int))
                    == header + first_out + later_parts_out(rest),
                i > 1 ==> self.at_line_start == (parts[i - 1]@.len() == 0),
                i == 1 ==> self.at_line_start == als1,
                self.started,
            decreases parts.len() - i,
        {
            proof {
                lemma_deep_view_chars(&parts[i as int]);
            }
            let ghost pre = out_views(out@);
            let ghost tail = parts.deep_view().skip(i as int);
            assert(tail.drop_first() =~= parts.deep_view().skip(i + 1));
            let nl = vec!['\n'];
            assert(nl@ =~= seq!['\n']);
            assert(tail[0] == parts[i as int]@);
            out.push(ThinkOut::Chunk(string_of(&nl)));
            self.at_line_start = true;
            if parts[i].len() > 0 {
                out.push(ThinkOut::Prefix);
                self.at_line_start = false;
                out.push(ThinkOut::Chunk(string_of(&parts[i])));
            }
            assert(out_views(out@) =~= pre + seq![ThinkOutModel::Chunk(seq!['\n'])] + (if tail[0].len()
                > 0 {
                seq![ThinkOutModel::Prefix, ThinkOutModel::Chunk(tail[0])]
            } else {
                seq![]
            }));
            i += 1;
        }
        assert(parts.deep_view().skip(i as int) =~= Seq::<Seq<char>>::empty());
        assert(out_views(out@) =~= header + first_out + later_parts_out(rest));
        if v.len() > 0 && v[v.len() - 1] == '\n' {
            self.at_line_start = true;
        }
        proof {
            lemma_split_nl_last(v@);
            if parts.len() > 1 {
                assert(rest.last() == parts[parts.len() - 1]@);
            }
        }
        assert(out_views(out@) == spec_feed(old(self).started, old(self).at_line_start, chunk@).2);
        out
    }

    /// Close the block: returns whether a block was open (its end must be
    /// printed).
    pub fn finish(&mut self) -> (printed: bool)
        ensures
            printed == old(self).started,
            old(self).started ==> !final(self).started && final(self).at_line_start,
            !old(self).started ==> *final(self) == *old(self),
    {
        if self.started {
            self.started = false;
            self.at_line_start = true;
            true
        } else {
            false
        }
    }
}

/// The last piece of `s.split('\n')` is empty exactly when `s` ends with a
/// newline.
pub proof fn lemma_split_nl_last(s: Seq<char>)
    ensures
        split_nl(s).len() >= 1,
        s.len() > 0 && s.last() == '\n' ==> split_nl(s).last().len() == 0,
        split_nl(s).len() == 1 ==> split_nl(s)[0] == s,
    decreases s.len(),
{
    lemma_lead_len(s, not_nl());
    let k = lead_len(s, not_nl());
    if k < s.len() {
        lemma_split_nl_last(s.skip((k + 1) as int));
        if s.len() > 0 && s.last() == '\n' && k + 1 < s.len() {
            assert(s.skip((k + 1) as int).last() == s.last());
        }
        if k + 1 == s.len() {
            assert(s.skip((k + 1) as int) =~= Seq::<char>::empty());
            assert(split_nl(Seq::<char>::empty()) == seq![Seq::<char>::empty()]);
        }
    }
}

/// The text of the chunks among printer output, in order (headers and
/// borders left out).
pub open spec fn chunk_text(o: Seq<ThinkOutModel>) -> Seq<char>
    decreases o.len(),
{
    if o.len() == 0 {
        seq![]
    } else {
        (match o[0] {
            ThinkOutModel::Chunk(t) => t,
            _ => seq![],
        }) + chunk_text(o.drop_first())
    }
}

/// Each piece after a newline, as it reads in the text: `\n` then the piece.
pub open spec fn after_newlines(parts: Seq<Seq<char>>) -> Seq<char>
    decreases parts.len(),
{
    if parts.len() == 0 {
        seq![]
    } else {
        seq!['\n'] + parts[0] + after_newlines(parts.drop_first())
    }
}

proof fn lemma_chunk_text_concat(a: Seq<ThinkOutModel>, b: Seq<ThinkOutModel>)
    ensures
        chunk_text(a + b) == chunk_text(a) + chunk_text(b),
    decreases a.len(),
{
    if a.len() == 0 {
        assert(a + b =~= b);
    } else {
        assert((a + b).drop_first() =~= a.drop_first() + b);
        lemma_chunk_text_concat(a.drop_first(), b);
        assert(chunk_text(a + b) =~= chunk_text(a) + chunk_text(b));
    }
}

proof fn lemma_later_parts_text(parts: Seq<Seq<char>>)
    ensures
        chunk_text(later_parts_out(parts)) == after_newlines(parts),
    decreases parts.len(),
{
    reveal_with_fuel(chunk_text, 3);
    if parts.len() > 0 {
        let nl = seq![ThinkOutModel::Chunk(seq!['\n'])];
        let body = if parts[0].len() > 0 {
            seq![ThinkOutModel::Prefix, ThinkOutModel::Chunk(parts[0])]
        } else {
            seq![]
        };
        lemma_later_parts_text(parts.drop_first());
        lemma_chunk_text_concat(nl + body, later_parts_out(parts.drop_first()));
        lemma_chunk_text_concat(nl, body);
        assert(chunk_text(nl) =~= seq!['\n']);
        if parts[0].len() > 0 {
            assert(chunk_text(body) =~= parts[0]) by {
                assert(body.drop_first().drop_first() =~= Seq::<ThinkOutModel>::empty());
            }
        } else {
            assert(parts[0] =~= Seq::<char>::empty());
        }
        assert(chunk_text(later_parts_out(parts)) =~= after_newlines(parts));
    }
}

proof fn lemma_split_nl_text(s: Seq<char>)
    ensures
        split_nl(s)[0] + after_newlines(split_nl(s).drop_first()) == s,
    decreases s.len(),
{
    lemma_lead_len(s, not_nl());
    let k = lead_len(s, not_nl());
    if k >= s.len() {
        assert(split_nl(s).drop_first() =~= Seq::<Seq<char>>::empty());
        assert(s + Seq::<char>::empty() =~= s);
    } else {
        let rest = s.skip((k + 1) as int);
        lemma_split_nl_text(rest);
        lemma_split_nl_last(rest);
        assert(split_nl(s).drop_first() =~= split_nl(rest));
        assert(s[k as int] == '\n');
        assert(s =~= s.take(k as int) + seq!['\n'] + rest);
        assert(after_newlines(split_nl(rest)) =~= seq!['\n'] + split_nl(rest)[0] + after_newlines(
            split_nl(rest).drop_first(),
        ));
    }
}

/// The printer passes every character of a chunk on, in order: what its
/// text chunks spell is exactly the chunk (headers and `│ ` borders aside).
pub proof fn lemma_feed_keeps_text(started: bool, at_line_start: bool, chunk: Seq<char>)
    ensures
        chunk_text(spec_feed(started, at_line_start, chunk).2) == chunk,
{
    reveal_with_fuel(chunk_text, 3);
    if chunk.len() > 0 {
        let parts = split_nl(chunk);
        lemma_split_nl_last(chunk);
        let first = parts[0];
        let header = if started {
            seq![]
        } else {
            seq![ThinkOutModel::Start]
        };
        let pre = if at_line_start {
            seq![ThinkOutModel::Prefix]
        } else {
            seq![]
        };
        let first_out = if first.len() > 0 {
            pre + seq![ThinkOutModel::Chunk(first)]
        } else {
            seq![]
        };
        lemma_chunk_text_concat(header + first_out, later_parts_out(parts.drop_first()));
        lemma_chunk_text_concat(header, first_out);
        assert(chunk_text(header) =~= Seq::<char>::empty()) by {
            if !started {
                assert(header.drop_first() =~= Seq::<ThinkOutModel>::empty());
            }
        }
        if first.len() > 0 {
            lemma_chunk_text_concat(pre, seq![ThinkOutModel::Chunk(first)]);
            assert(chunk_text(pre) =~= Seq::<char>::empty()) by {
                if at_line_start {
                    assert(pre.drop_first() =~= Seq::<ThinkOutModel>::empty());
                }
            }
            assert(chunk_text(seq![ThinkOutModel::Chunk(first)]) =~= first) by {
                assert(seq![ThinkOutModel::Chunk(first)].drop_first() =~= Seq::<ThinkOutModel>::empty());
            }
        } else {
            assert(first =~= Seq::<char>::empty());
        }
        lemma_later_parts_text(parts.drop_first());
        lemma_split_nl_text(chunk);
        assert(chunk_text(spec_feed(started, at_line_start, chunk).2) =~= chunk);
    }
}

/// `v.split('\n')`.
pub fn split_on_newline(v: &Vec<char>) -> (r: Vec<Vec<char>>)
    ensures
        r.deep_view() == split_nl(v@),
        r.len() >= 1,
{
    let mut r: Vec<Vec<char>> = Vec::new();
    let mut i: usize = 0;
    assert(v@.skip(0) =~= v@);
    loop
        invariant
            i <= v.len(),
            split_nl(v@) == r.deep_view() + split_nl(v@.skip(i as int)),
        decreases v.len() - i,
    {
        let ghost rest = v@.skip(i as int);
        let ghost dv = r.deep_view();
        assert(rest =~= v@.subrange(i as int, v.len() as int));
        let j = crate::text::line_end(v, i);
        proof {
            lemma_lead_len(rest, not_nl());
            assert(crate::text::not_nl() == not_nl());
        }
        let piece = slice_chars(v, i, j);
        proof {
            lemma_deep_view_chars(&piece);
        }
        r.push(piece);
        assert(r.deep_view() =~= dv.push(piece@));
        if j == v.len() {
            assert(split_nl(rest) == seq![rest]);
            assert(piece@ =~= rest);
            assert(split_nl(v@) =~= r.deep_view());
            return r;
        }
        assert(piece@ =~= rest.take(j - i));
        assert(rest.skip(j - i + 1) =~= v@.skip(j + 1));
        i = j + 1;
    }
}

/// Writes `chunk` as response text: returns whether the response's opening
/// must be printed first.  The chunk is always appended to `response_text`;
/// it is shown unless `silent`.
pub fn emit_text(chunk: &str, response_started: &mut bool, response_text: &mut String, silent: bool) -> (print_start: bool)
    ensures
        print_start == (!silent && !*old(response_started)),
        *final(response_started) == (*old(response_started) || !silent),
        final(response_text)@ == old(response_text)@ + chunk@,
{
    let mut v = chars_of(response_text.as_str());
    crate::text::push_str(&mut v, chunk);
    *response_text = string_of(&v);
    if !silent && !*response_started {
        *response_started = true;
        true
    } else {
        false
    }
}


// ── Token accounting ───────────────────────────────────────────────────────

/// Token usage reported for one model turn.
#[derive(Debug, Clone, Copy)]
pub struct Usage {
    pub input_tokens: u64,
    pub output_tokens: u64,
    pub total_tokens: u64,
    pub cached_input_tokens: u64,
    pub cache_creation_input_tokens: u64,
    pub reasoning_tokens: u64,
}

/// Tracks cumulative token usage across all turns in a session.
#[derive(Debug, Clone, Copy)]
pub struct ContextStats {
    pub input_tokens: u64,
    pub output_tokens: u64,
    pub total_tokens: u64,
    pub cached_input_tokens: u64,
    pub reasoning_tokens: u64,
}

impl ContextStats {
    pub open spec fn is_zero(self) -> bool {
        &&& self.input_tokens == 0
        &&& self.output_tokens == 0
        &&& self.total_tokens == 0
        &&& self.cached_input_tokens == 0
        &&& self.reasoning_tokens == 0
    }

    /// The counters after adding `u`.
    pub open spec fn can_add(self, u: Usage) -> bool {
        &&& self.input_tokens + u.input_tokens <= u64::MAX
        &&& self.output_tokens + u.output_tokens <= u64::MAX
        &&& self.total_tokens + u.total_tokens <= u64::MAX
        &&& self.cached_input_tokens + u.cached_input_tokens <= u64::MAX
        &&& self.reasoning_tokens + u.reasoning_tokens <= u64::MAX
    }

    pub fn new() -> (s: Self)
        ensures
            s.is_zero(),
    {
        ContextStats {
            input_tokens: 0,
            output_tokens: 0,
            total_tokens: 0,
            cached_input_tokens: 0,
            reasoning_tokens: 0,
        }
    }

    /// Add one turn's usage to the running totals.
    pub fn add(&mut self, usage: &Usage)
        requires
            old(self).can_add(*usage),
        ensures
            final(self).input_tokens == old(self).input_tokens + usage.input_tokens,
            final(self).output_tokens == old(self).output_tokens + usage.output_tokens,
            final(self).total_tokens == old(self).total_tokens + usage.total_tokens,
            final(self).cached_input_tokens == old(self).cached_input_tokens
                + usage.cached_input_tokens,
            final(self).reasoning_tokens == old(self).reasoning_tokens + usage.reasoning_tokens,
    {
        self.input_tokens = self.input_tokens + usage.input_tokens;
        self.output_tokens = self.output_tokens + usage.output_tokens;
        self.total_tokens = self.total_tokens + usage.total_tokens;
        self.cached_input_tokens = self.cached_input_tokens + usage.cached_input_tokens;
        self.reasoning_tokens = self.reasoning_tokens + usage.reasoning_tokens;
    }
}

impl Default for ContextStats {
    fn default() -> (s: Self)
        ensures
            s.is_zero(),
    {
        ContextStats::new()
    }
}

// ── Model selection ────────────────────────────────────────────────────────

pub open spec fn is_digit(c: char) -> bool {
    '0' <= c && c <= '9'
}

/// The number written by the decimal digits `d`.
pub open spec fn digits_value(d: Seq<char>) -> nat
    decreases d.len(),
{
    if d.len() == 0 {
        0
    } else {
        digits_value(d.drop_last()) * 10 + (d.last() as nat - '0' as nat) as nat
    }
}

/// The digits of a number: the text without its optional leading `+`.
pub open spec fn unsigned_digits(s: Seq<char>) -> Seq<char> {
    if s.len() > 0 && s[0] == '+' {
        s.drop_first()
    } else {
        s
    }
}

pub open spec fn all_digits(d: Seq<char>) -> bool {
    forall|i: int| 0 <= i < d.len() ==> is_digit(#[trigger] d[i])
}

/// `str::parse::<usize>`: an optional `+`, then one or more ASCII digits,
/// whose value fits in `usize`.
pub open spec fn parse_usize(s: Seq<char>) -> Option<nat> {
    let d = unsigned_digits(s);
    if d.len() == 0 || !all_digits(d) {
        None
    } else if digits_value(d) > usize::MAX {
        None
    } else {
        Some(digits_value(d))
    }
}

/// Parses a decimal `usize` as `str::parse` does.
pub fn parse_usize_chars(s: &Vec<char>) -> (r: Option<usize>)
    ensures
        r matches Some(n) ==> parse_usize(s@) == Some(n as nat),
        r is None ==> parse_usize(s@) is None,
{
    let start: usize = if s.len() > 0 && s[0] == '+' {
        1
    } else {
        0
    };
    let ghost d = unsigned_digits(s@);
    assert(d =~= s@.skip(start as int));
    if start >= s.len() {
        return None;
    }
    let mut value: usize = 0;
    let mut overflow = false;
    let mut i = start;
    while i < s.len()
        invariant
            start <= i <= s.len(),
            d == s@.skip(start as int),
            d == unsigned_digits(s@),
            forall|k: int| start <= k < i ==> is_digit(s@[k]),
            !overflow ==> value as nat == digits_value(s@.subrange(start as int, i as int)),
            overflow ==> digits_value(s@.subrange(start as int, i as int)) > usize::MAX,
        decreases s.len() - i,
    {
        let c = s[i];
        if !('0' <= c && c <= '9') {
            assert(!is_digit(d[(i - start) as int]));
            assert(!all_digits(d));
            return None;
        }
        let ghost prev = s@.subrange(start as int, i as int);
        assert(s@.subrange(start as int, i + 1).drop_last() =~= prev);
        let dig = (c as u32 - '0' as u32) as usize;
        if !overflow {
            match value.checked_mul(10) {
                Some(v10) => match v10.checked_add(dig) {
                    Some(v) => {
                        value = v;
                    },
                    None => {
                        overflow = true;
                    },
                },
                None => {
                    overflow = true;
                },
            }
        } else {
            assert(digits_value(s@.subrange(start as int, i + 1)) >= digits_value(prev) * 10)
                by (nonlinear_arith)
                requires
                    digits_value(s@.subrange(start as int, i + 1)) == digits_value(prev) * 10 + (
                    c as nat - '0' as nat) as nat,
            ;
        }
        i += 1;
    }
    assert(s@.subrange(start as int, s.len() as int) =~= d);
    if overflow {
        None
    } else {
        Some(value)
    }
}

/// The model picked by a selection: a number `n` from 1 to the number of
/// models picks the `n`-th model, any other number picks none; a name picks
/// itself when it is listed.
pub open spec fn spec_resolve_model_selection(sel: Seq<char>, available: Seq<Seq<char>>) -> Option<
    Seq<char>,
> {
    match parse_usize(sel) {
        Some(n) => if 1 <= n <= available.len() {
            Some(available[n - 1])
        } else {
            None
        },
        None => if available.contains(sel) {
            Some(sel)
        } else {
            None
        },
    }
}

/// Resolve a raw selection string (number or name) against a model list.
/// Returns `None` if the selection is out of range or not found.
pub fn resolve_model_selection(sel: &str, available: &Vec<String>) -> (r: Option<String>)
    ensures
        r matches Some(m) ==> spec_resolve_model_selection(sel@, available.deep_view()) == Some(
            m@,
        ),
        r is None ==> spec_resolve_model_selection(sel@, available.deep_view()) is None,
{
    let sv = chars_of(sel);
    match parse_usize_chars(&sv) {
        Some(n) => {
            if n >= 1 && n <= available.len() {
                Some(string_of(&chars_of(available[n - 1].as_str())))
            } else {
                None
            }
        },
        None => {
            let mut j: usize = 0;
            while j < available.len()
                invariant
                    j <= available.len(),
                    sv@ == sel@,
                    parse_usize(sel@) is None,
                    forall|k: int| 0 <= k < j ==> available.deep_view()[k] != sel@,
                decreases available.len() - j,
            {
                let a = chars_of(available[j].as_str());
                assert(available.deep_view()[j as int] == available[j as int]@);
                if crate::text::eq_chars(&a, &sv) {
                    assert(available.deep_view()[j as int] == sel@);
                    assert(available.deep_view().contains(sel@));
                    assert(parse_usize(sel@) is None);
                    let res = string_of(&sv);
                    assert(spec_resolve_model_selection(sel@, available.deep_view()) == Some(res@));
                    return Some(res);
                }
                j += 1;
            }
            assert(!available.deep_view().contains(sel@));
            None
        },
    }
}


// ── AGENTS.md rules ────────────────────────────────────────────────────────

pub open spec fn hash_char() -> spec_fn(char) -> bool {
    |c: char| c == '#'
}

/// Number of `#` characters that open the line.
pub open spec fn hashes(l: Seq<char>) -> nat {
    lead_len(l, hash_char())
}

/// The line is an ATX heading: one to six `#`, then a space.
pub open spec fn is_heading(l: Seq<char>) -> bool {
    0 < hashes(l) <= 6 && starts_with(l.skip(hashes(l) as int), " "@)
}

/// The heading's text, trimmed and lowercased.
pub open spec fn heading_text(l: Seq<char>) -> Seq<char> {
    lowercase(trim(l.skip(hashes(l) as int)))
}

/// The part of AGENTS.md a line belongs to.
#[derive(Clone, Copy, Debug, PartialEq, Eq)]
pub enum Section {
    /// Before any agent heading.
    Global,
    /// Inside the matching agent's section.
    Ours,
    /// Inside a different agent's section.
    Other,
}

/// The heading text of a line that is an ATX heading, `None` for other lines.
pub open spec fn line_heading(l: Seq<char>) -> Option<Seq<char>> {
    if is_heading(l) {
        Some(heading_text(l))
    } else {
        None
    }
}

/// Each line with its heading text, if it is a heading.
pub open spec fn marked_lines(ls: Seq<Seq<char>>) -> Seq<(Seq<char>, Option<Seq<char>>)> {
    ls.map_values(|l: Seq<char>| (l, line_heading(l)))
}

/// The view of lines marked with their (lowercased) heading texts.
pub open spec fn marked_view(v: Seq<(String, Option<String>)>) -> Seq<
    (Seq<char>, Option<Seq<char>>),
> {
    v.map_values(
        |p: (String, Option<String>)|
            (
                p.0@,
                match p.1 {
                    Some(h) => Some(h@),
                    None => None,
                },
            ),
    )
}

/// The text that the marked lines `ls`, read from section `sec`, add to the
/// global rules and to our agent's rules (each line followed by a newline).
/// A heading whose text is `name` opens our section; every other heading
/// opens another agent's section; both headings are dropped.
pub open spec fn split_sections(
    ls: Seq<(Seq<char>, Option<Seq<char>>)>,
    sec: Section,
    name: Seq<char>,
) -> (Seq<char>, Seq<char>)
    decreases ls.len(),
{
    if ls.len() == 0 {
        (seq![], seq![])
    } else {
        let l = ls[0].0;
        let rest = ls.drop_first();
        match ls[0].1 {
            Some(h) => if h == name {
                split_sections(rest, Section::Ours, name)
            } else {
                split_sections(rest, Section::Other, name)
            },
            None => {
                let (g, o) = split_sections(rest, sec, name);
                match sec {
                    Section::Global => (l + "\n"@ + g, o),
                    Section::Ours => (g, l + "\n"@ + o),
                    Section::Other => (g, o),
                }
            },
        }
    }
}

/// What the lines `ls` add to the global rules and to the rules of the
/// agent whose lowercased name is `name`, read from section `sec`.
pub open spec fn sections(ls: Seq<Seq<char>>, sec: Section, name: Seq<char>) -> (
    Seq<char>,
    Seq<char>,
) {
    split_sections(marked_lines(ls), sec, name)
}

/// The rules for `agent_name`: the global rules, then (after a blank line)
/// the body of the agent's own section, each with trailing whitespace
/// removed.
pub open spec fn spec_extract_agent_rules(contents: Seq<char>, agent_name: Seq<char>) -> Seq<
    char,
> {
    let (g, o) = sections(lines(contents), Section::Global, lowercase(agent_name));
    let global = trim_end(g);
    let ours = trim_end(o);
    if ours.len() == 0 {
        global
    } else if global.len() == 0 {
        ours
    } else {
        global + "\n\n"@ + ours
    }
}

/// Lines marked with their heading texts, as `agent_sections` reads them.
pub type MarkedLines = Seq<(Seq<char>, Option<Seq<char>>)>;

/// Once a heading is read, what came before no longer matters.
proof fn lemma_heading_resets(b: MarkedLines, s1: Section, s2: Section, name: Seq<char>)
    requires
        b.len() > 0,
        b[0].1 is Some,
    ensures
        split_sections(b, s1, name) == split_sections(b, s2, name),
{
}

/// After any heading, nothing more goes to the global rules.
proof fn lemma_no_global_after_heading(b: MarkedLines, sec: Section, name: Seq<char>)
    requires
        sec != Section::Global,
    ensures
        split_sections(b, sec, name).0 == Seq::<char>::empty(),
    decreases b.len(),
{
    if b.len() > 0 {
        match b[0].1 {
            Some(h) => {
                if h == name {
                    lemma_no_global_after_heading(b.drop_first(), Section::Ours, name);
                } else {
                    lemma_no_global_after_heading(b.drop_first(), Section::Other, name);
                }
            },
            None => {
                lemma_no_global_after_heading(b.drop_first(), sec, name);
            },
        }
    }
}

/// Plain lines read inside another agent's section contribute nothing.
proof fn lemma_plain_lines_in_other(b: MarkedLines, name: Seq<char>)
    requires
        forall|k: int| 0 <= k < b.len() ==> (#[trigger] b[k]).1 is None,
    ensures
        split_sections(b, Section::Other, name) == (Seq::<char>::empty(), Seq::<char>::empty()),
    decreases b.len(),
{
    if b.len() > 0 {
        assert forall|k: int| 0 <= k < b.drop_first().len() implies (
        #[trigger] b.drop_first()[k]).1 is None by {
            assert(b.drop_first()[k] == b[k + 1]);
        }
        lemma_plain_lines_in_other(b.drop_first(), name);
    }
}

proof fn lemma_sections_compose_from(a: MarkedLines, b: MarkedLines, sec: Section, name: Seq<char>)
    requires
        b.len() > 0,
        b[0].1 is Some,
    ensures
        split_sections(a + b, sec, name) == ({
            let (ga, oa) = split_sections(a, sec, name);
            let (gb, ob) = split_sections(b, Section::Global, name);
            (ga + gb, oa + ob)
        }),
    decreases a.len(),
{
    if a.len() == 0 {
        assert(a + b =~= b);
        lemma_heading_resets(b, sec, Section::Global, name);
        let (gb, ob) = split_sections(b, Section::Global, name);
        assert(Seq::<char>::empty() + gb =~= gb);
        assert(Seq::<char>::empty() + ob =~= ob);
    } else {
        assert((a + b)[0] == a[0]);
        assert((a + b).drop_first() =~= a.drop_first() + b);
        let (gb, ob) = split_sections(b, Section::Global, name);
        match a[0].1 {
            Some(h) => {
                if h == name {
                    lemma_sections_compose_from(a.drop_first(), b, Section::Ours, name);
                } else {
                    lemma_sections_compose_from(a.drop_first(), b, Section::Other, name);
                }
            },
            None => {
                lemma_sections_compose_from(a.drop_first(), b, sec, name);
                let l = a[0].0;
                let (ga1, oa1) = split_sections(a.drop_first(), sec, name);
                assert(l + "\n"@ + (ga1 + gb) =~= (l + "\n"@ + ga1) + gb);
                assert(l + "\n"@ + (oa1 + ob) =~= (l + "\n"@ + oa1) + ob);
            },
        }
    }
}

/// A heading starts afresh whatever came before it: the rules read from
/// `a` followed by `b`, when `b` begins with a heading, are the rules read
/// from `a` followed by those read from `b` alone.  So our own section is
/// included wherever it stands, and `b` adds nothing to the global rules.
pub proof fn lemma_sections_compose(a: MarkedLines, b: MarkedLines, name: Seq<char>)
    requires
        b.len() > 0,
        b[0].1 is Some,
    ensures
        split_sections(a + b, Section::Global, name) == ({
            let (ga, oa) = split_sections(a, Section::Global, name);
            let (gb, ob) = split_sections(b, Section::Global, name);
            (ga + gb, oa + ob)
        }),
        split_sections(b, Section::Global, name).0 == Seq::<char>::empty(),
{
    lemma_sections_compose_from(a, b, Section::Global, name);
    match b[0].1 {
        Some(h) => {
            if h == name {
                lemma_no_global_after_heading(b.drop_first(), Section::Ours, name);
            } else {
                lemma_no_global_after_heading(b.drop_first(), Section::Other, name);
            }
        },
        None => {},
    }
}

/// Moving another agent's section (its heading and plain lines) from after
/// our section to before it leaves the extracted rules unchanged.
pub proof fn lemma_foreign_section_order(
    global: MarkedLines,
    ours: MarkedLines,
    foreign: MarkedLines,
    name: Seq<char>,
)
    requires
        ours.len() > 0,
        ours[0].1 == Some(name),
        foreign.len() > 0,
        foreign[0].1 is Some,
        foreign[0].1 != Some(name),
        forall|k: int| 1 <= k < foreign.len() ==> (#[trigger] foreign[k]).1 is None,
    ensures
        split_sections(global + ours + foreign, Section::Global, name) == split_sections(
            global + foreign + ours,
            Section::Global,
            name,
        ),
{
    let (g, o) = split_sections(global, Section::Global, name);
    let (go, oo) = split_sections(ours, Section::Global, name);
    let (gf, of) = split_sections(foreign, Section::Global, name);
    assert forall|k: int| 0 <= k < foreign.drop_first().len() implies (
    #[trigger] foreign.drop_first()[k]).1 is None by {
        assert(foreign.drop_first()[k] == foreign[k + 1]);
    }
    lemma_plain_lines_in_other(foreign.drop_first(), name);
    assert(gf =~= Seq::<char>::empty() && of =~= Seq::<char>::empty());
    lemma_sections_compose(global, ours, name);
    lemma_sections_compose(global + ours, foreign, name);
    lemma_sections_compose(global, foreign, name);
    lemma_sections_compose(global + foreign, ours, name);
    assert(g + go + gf =~= g);
    assert(g + gf + go =~= g);
    assert(o + oo + of =~= o + oo);
    assert(o + of + oo =~= o + oo);
}

/// Sort the lines of AGENTS.md into the global rules and the rules of the
/// agent named `name`.  Each line comes with its heading text (trimmed and
/// lowercased) when it is a heading; `name` is lowercased too.  Returns the
/// global text and our section's text, each line followed by a newline.
pub fn agent_sections(lines: &Vec<(String, Option<String>)>, name: &str) -> (r: (String, String))
    ensures
        (r.0@, r.1@) == split_sections(marked_view(lines@), Section::Global, name@),
{
    let ghost all = marked_view(lines@);
    let mut sec = Section::Global;
    let mut global: Vec<char> = Vec::new();
    let mut ours: Vec<char> = Vec::new();
    let mut i: usize = 0;
    assert(all.skip(0) =~= all);
    while i < lines.len()
        invariant
            i <= lines.len(),
            all == marked_view(lines@),
            split_sections(all, Section::Global, name@) == ({
                let (g, o) = split_sections(all.skip(i as int), sec, name@);
                (global@ + g, ours@ + o)
            }),
        decreases lines.len() - i,
    {
        let ghost rest = all.skip(i as int);
        assert(rest.drop_first() =~= all.skip(i + 1));
        let line = &lines[i].0;
        let head = &lines[i].1;
        assert(rest[0] == all[i as int]);
        match head {
            Some(h) => {
                if crate::text::eq_str(&chars_of(h.as_str()), name) {
                    sec = Section::Ours;
                } else {
                    sec = Section::Other;
                }
            },
            None => {
                let ghost g0 = global@;
                let ghost o0 = ours@;
                let lv = chars_of(line.as_str());
                match sec {
                    Section::Global => {
                        crate::text::push_all(&mut global, &lv);
                        global.push('\n');
                    },
                    Section::Ours => {
                        crate::text::push_all(&mut ours, &lv);
                        ours.push('\n');
                    },
                    Section::Other => {},
                }
                proof {
                    reveal_strlit("\n");
                    let (g, o) = split_sections(all.skip(i + 1), sec, name@);
                    assert("\n"@ =~= seq!['\n']);
                    match sec {
                        Section::Global => {
                            assert(global@ + g =~= g0 + (rest[0].0 + "\n"@ + g));
                        },
                        Section::Ours => {
                            assert(ours@ + o =~= o0 + (rest[0].0 + "\n"@ + o));
                        },
                        Section::Other => {},
                    }
                }
            },
        }
        i += 1;
    }
    assert(all.skip(i as int) =~= Seq::<(Seq<char>, Option<Seq<char>>)>::empty());
    assert(global@ + Seq::<char>::empty() =~= global@);
    assert(ours@ + Seq::<char>::empty() =~= ours@);
    (string_of(&global), string_of(&ours))
}

/// The line's heading text (trimmed and lowercased) when it is an ATX
/// heading: one to six `#`, then a space.
fn heading_of(line: &Vec<char>) -> (r: Option<Vec<char>>)
    ensures
        r matches Some(t) ==> line_heading(line@) == Some(t@),
        r is None ==> line_heading(line@) is None,
{
    let h = skip_hashes(line);
    if h > 0 && h <= 6 && crate::text::starts_with_str(&slice_chars(line, h, line.len()), " ") {
        assert(line@.subrange(h as int, line@.len() as int) =~= line@.skip(h as int));
        let text = crate::text::trim_chars(&slice_chars(line, h, line.len()));
        Some(lowercase_chars(&text))
    } else {
        assert(line@.subrange(h as int, line@.len() as int) =~= line@.skip(h as int));
        None
    }
}

/// Extract the rules from `contents` that apply to `agent_name`: all text
/// before the first agent-specific heading (global rules), plus the body of
/// the heading section whose title matches `agent_name` (case-insensitive).
/// Every other heading, `#` through `######`, opens a section that is left
/// out.
pub fn extract_agent_rules(contents: &str, agent_name: &str) -> (r: String)
    ensures
        r@ == spec_extract_agent_rules(contents@, agent_name@),
{
    let name = string_of(&lowercase_chars(&chars_of(agent_name)));
    let cv = chars_of(contents);
    let ls = crate::text::split_lines(&cv);
    let ghost all = ls.deep_view();
    let mut marked: Vec<(String, Option<String>)> = Vec::new();
    let mut i: usize = 0;
    while i < ls.len()
        invariant
            i <= ls.len(),
            all == ls.deep_view(),
            marked.len() == i,
            marked_view(marked@) =~= marked_lines(all).take(i as int),
        decreases ls.len() - i,
    {
        proof {
            lemma_deep_view_chars(&ls[i as int]);
        }
        let head = match heading_of(&ls[i]) {
            Some(t) => Some(string_of(&t)),
            None => None,
        };
        let ghost before = marked@;
        marked.push((string_of(&ls[i]), head));
        proof {
            assert(marked@ =~= before.push(marked@[i as int]));
            assert(marked_view(marked@) =~= marked_view(before).push(marked_lines(all)[i as int]));
            assert(marked_lines(all).take(i + 1) =~= marked_lines(all).take(i as int).push(
                marked_lines(all)[i as int],
            ));
        }
        i += 1;
    }
    assert(marked_lines(all).take(i as int) =~= marked_lines(all));
    let (gs, os) = agent_sections(&marked, name.as_str());
    let g = crate::text::trim_end_chars(&chars_of(gs.as_str()));
    let o = crate::text::trim_end_chars(&chars_of(os.as_str()));
    if o.len() == 0 {
        string_of(&g)
    } else if g.len() == 0 {
        string_of(&o)
    } else {
        let mut out = g;
        crate::text::push_str(&mut out, "\n\n");
        crate::text::push_all(&mut out, &o);
        string_of(&out)
    }
}

/// Number of leading `#` characters of `l`.
fn skip_hashes(l: &Vec<char>) -> (r: usize)
    ensures
        r == hashes(l@),
        r <= l.len(),
{
    let mut i: usize = 0;
    assert(l@.subrange(0, l.len() as int) =~= l@);
    while i < l.len() && l[i] == '#'
        invariant
            i <= l.len(),
            hashes(l@) == i + lead_len(l@.subrange(i as int, l.len() as int), hash_char()),
        decreases l.len() - i,
    {
        proof {
            lemma_lead_len_step(l@, i as int, l.len() as int, hash_char());
        }
        i += 1;
    }
    proof {
        if i < l.len() {
            lemma_lead_len_step(l@, i as int, l.len() as int, hash_char());
        }
    }
    i
}


// ── Session decisions ──────────────────────────────────────────────────────

/// The agent's name, as AGENTS.md sections address it.
pub const AGENT_NAME: &'static str = "kapitoshka";

/// The base system prompt.
pub const SYSTEM_PROMPT_BASE: &'static str = "You are kapitoshka, an expert coding agent. You help users with software engineering tasks.

You have access to tools to read files, write files, list directories, run shell commands,
and manage a structured task plan via `todo_write`.

## Planning

For any non-trivial task (more than a single lookup or one-line fix):
1. Invoke the `todo_write` tool immediately with a numbered plan before doing any other work.
2. As you start each step, invoke `todo_write` again to mark it `in_progress`.
3. When a step is done, mark it `completed` before moving to the next one.
4. If you discover the plan needs revision mid-task, invoke `todo_write` with an updated list.

For simple questions or tiny one-step tasks you may skip planning.

## Delegation

Use `spawn_agent` tool to delegate self-contained sub-tasks to a focused subagent. Good candidates:
- Investigating or summarising a specific module or file set
- Performing a scoped rewrite or refactor on a single file
- Running tests and summarising failures
- Any step whose inputs and expected output can be described completely in one prompt

Rules for effective delegation:
1. The subagent has no memory of this conversation — put everything it needs in `task`.
2. Include relevant file paths, goals, and constraints explicitly.
3. Use `context` for role framing or additional constraints on the subagent.
4. Do not delegate tasks that require back-and-forth with the user.
5. Subagents cannot spawn further subagents; keep delegated tasks atomic.

## File operations

Always explore the codebase before making changes. Prefer targeted edits over full rewrites.
After making changes, verify them by reading the modified files or running relevant commands.

Working directory is provided in the task. Use it as the root for all file operations.";

/// The system prompt: the base prompt, followed by the AGENTS.md rules that
/// apply to this agent when the file was read, is not blank, and holds any.
pub open spec fn spec_system_prompt(agents_md: Option<Seq<char>>) -> Seq<char> {
    match agents_md {
        Some(c) => {
            let rules = spec_extract_agent_rules(c, AGENT_NAME@);
            if trim(c).len() > 0 && trim(rules).len() > 0 {
                SYSTEM_PROMPT_BASE@ + "\n\n# Project Rules (AGENTS.md)\n\n"@ + rules
            } else {
                SYSTEM_PROMPT_BASE@
            }
        },
        None => SYSTEM_PROMPT_BASE@,
    }
}

/// Build the system prompt from the contents of AGENTS.md (`None` when the
/// file could not be read).
pub fn build_system_prompt(agents_md: Option<&str>) -> (r: String)
    ensures
        r@ == spec_system_prompt(
            match agents_md {
                Some(c) => Some(c@),
                None => None,
            },
        ),
{
    match agents_md {
        None => SYSTEM_PROMPT_BASE.to_string(),
        Some(c) => {
            let cv = chars_of(c);
            if crate::text::trim_chars(&cv).len() == 0 {
                return SYSTEM_PROMPT_BASE.to_string();
            }
            let rules = extract_agent_rules(c, AGENT_NAME);
            let rv = chars_of(rules.as_str());
            if crate::text::trim_chars(&rv).len() == 0 {
                return SYSTEM_PROMPT_BASE.to_string();
            }
            let mut out: Vec<char> = Vec::new();
            crate::text::push_str(&mut out, SYSTEM_PROMPT_BASE);
            crate::text::push_str(&mut out, "\n\n# Project Rules (AGENTS.md)\n\n");
            crate::text::push_all(&mut out, &rv);
            string_of(&out)
        },
    }
}

/// What the interactive loop does with a line the user typed.
#[derive(PartialEq, Eq, Structural)]
pub enum LineAction {
    /// A blank line: read the next one.
    Skip,
    /// `exit` or `quit`: end the session.
    Quit,
    /// `/model`: pick another model.
    SwitchModel,
    /// Anything else: a prompt for the agent.
    Prompt,
}

/// The action for a line, judged on the line with surrounding whitespace
/// removed.
pub open spec fn spec_classify_line(line: Seq<char>) -> LineAction {
    let t = trim(line);
    if t.len() == 0 {
        LineAction::Skip
    } else if t == "exit"@ || t == "quit"@ {
        LineAction::Quit
    } else if t == "/model"@ {
        LineAction::SwitchModel
    } else {
        LineAction::Prompt
    }
}

/// Classify a line typed at the prompt; also hands back the trimmed line,
/// which is what the agent receives.
pub fn classify_line(line: &str) -> (r: (LineAction, String))
    ensures
        r.0 == spec_classify_line(line@),
        r.1@ == trim(line@),
{
    let t = crate::text::trim_chars(&chars_of(line));
    let action = if t.len() == 0 {
        LineAction::Skip
    } else if crate::text::eq_str(&t, "exit") || crate::text::eq_str(&t, "quit") {
        LineAction::Quit
    } else if crate::text::eq_str(&t, "/model") {
        LineAction::SwitchModel
    } else {
        LineAction::Prompt
    };
    (action, string_of(&t))
}

/// The outcome of `/model`.
pub enum ModelChoice {
    /// A different model was picked.
    Switch(String),
    /// The current model was picked again: nothing changes.
    Keep,
    /// The selection named no listed model.
    Invalid,
}

/// The outcome of a selection (trimmed first) against the listed models.
pub open spec fn spec_model_choice(sel: Seq<char>, available: Seq<Seq<char>>, current: Seq<char>) -> Option<Option<Seq<char>>> {
    match spec_resolve_model_selection(trim(sel), available) {
        Some(m) => if m != current {
            Some(Some(m))
        } else {
            Some(None)
        },
        None => None,
    }
}

/// What the user's answer to the model list selects.
pub fn model_choice(sel: &str, available: &Vec<String>, current: &str) -> (r: ModelChoice)
    ensures
        match (r, spec_model_choice(sel@, available.deep_view(), current@)) {
            (ModelChoice::Switch(m), Some(Some(s))) => m@ == s,
            (ModelChoice::Keep, Some(None)) => true,
            (ModelChoice::Invalid, None) => true,
            _ => false,
        },
{
    let t = string_of(&crate::text::trim_chars(&chars_of(sel)));
    match resolve_model_selection(t.as_str(), available) {
        Some(m) => {
            let mv = chars_of(m.as_str());
            if crate::text::eq_str(&mv, current) {
                ModelChoice::Keep
            } else {
                ModelChoice::Switch(m)
            }
        },
        None => ModelChoice::Invalid,
    }
}

/// At the end of a turn: when nothing was streamed but the final response
/// has text, that text becomes the response (and is printed).  Returns
/// whether it was taken.
pub fn take_final_response(response_text: &mut String, final_response: &str) -> (taken: bool)
    ensures
        taken == (old(response_text)@.len() == 0 && final_response@.len() > 0),
        taken ==> final(response_text)@ == final_response@,
        !taken ==> final(response_text)@ == old(response_text)@,
{
    if response_text.as_str().is_empty() && !final_response.is_empty() {
        *response_text = final_response.to_string();
        true
    } else {
        false
    }
}

} // verus!
