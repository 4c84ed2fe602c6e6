//! Why holding text back while streaming is safe: what `scan_normal`
//! decides about a prefix of the stream stays true however the stream goes
//! on.
use crate::agent::{
    is_tag_char, lemma_scan_normal_parts, lemma_tags, state_measure, text_step, think_if,
    ActionModel, StateModel, spec_find_tool_open, spec_scan_normal, spec_suffix_prefix_from,
    spec_suffix_prefix_len, spec_trailing_tool_tag_len, tag_char, tag_name_len, tool_open_at,
    tool_open_from, THINK_CLOSE, THINK_OPEN, TOOL_CALL_TAG,
};
use crate::text::{
    find, find_from, lead_len, lemma_find_from, lemma_lead_len, lemma_trail_len, occurs_at,
    trail_len,
};
use vstd::prelude::*;

verus! {

proof fn lemma_think_chars()
    ensures
        THINK_OPEN@.len() == 7,
        THINK_OPEN@[0] == '<',
        THINK_OPEN@[6] == '>',
        forall|i: int| 1 <= i < 7 ==> THINK_OPEN@[i] != '<',
        forall|i: int| 1 <= i < 6 ==> is_tag_char(#[trigger] THINK_OPEN@[i]),
        !is_tag_char('<'),
        !is_tag_char('>'),
{
    reveal_strlit("<think>");
}

/// `lead_len` is the one length whose characters all pass and whose next
/// character (if any) does not.
pub proof fn lemma_lead_len_unique(s: Seq<char>, f: spec_fn(char) -> bool, n: int)
    requires
        0 <= n <= s.len(),
        forall|j: int| 0 <= j < n ==> f(#[trigger] s[j]),
        n < s.len() ==> !f(s[n]),
    ensures
        lead_len(s, f) == n,
{
    lemma_lead_len(s, f);
    let m = lead_len(s, f) as int;
    if m < n {
        assert(f(s[m]));
    } else if m > n {
        assert(f(s[n]));
    }
}

proof fn lemma_occurs_extend(s: Seq<char>, t: Seq<char>, p: Seq<char>, i: int)
    requires
        occurs_at(s, p, i),
    ensures
        occurs_at(s + t, p, i),
{
    assert((s + t).subrange(i, i + p.len()) =~= s.subrange(i, i + p.len()));
}

proof fn lemma_occurs_shrink(s: Seq<char>, t: Seq<char>, p: Seq<char>, i: int)
    requires
        occurs_at(s + t, p, i),
        i + p.len() <= s.len(),
    ensures
        occurs_at(s, p, i),
{
    assert((s + t).subrange(i, i + p.len()) =~= s.subrange(i, i + p.len()));
}

/// The characters of an occurrence of `p` at `i`.
proof fn lemma_occurs_char(s: Seq<char>, p: Seq<char>, i: int, j: int)
    requires
        occurs_at(s, p, i),
        0 <= j < p.len(),
    ensures
        s[i + j] == p[j],
{
    assert(s.subrange(i, i + p.len())[j] == s[i + j]);
}

/// The first occurrence from `i` is the one with none before it.
proof fn lemma_find_first(s: Seq<char>, p: Seq<char>, i: int, k: int)
    requires
        0 <= i <= k,
        occurs_at(s, p, k),
        forall|j: int| i <= j < k ==> !occurs_at(s, p, j),
    ensures
        find_from(s, p, i) == Some(k),
    decreases k - i,
{
    if i < k {
        lemma_find_first(s, p, i + 1, k);
    }
}

proof fn lemma_tool_from_min(s: Seq<char>, i: int)
    requires
        0 <= i,
    ensures
        tool_open_from(s, i) matches Some((a, b)) ==> i <= a && tool_open_at(s, a) && b == a + 2
            + tag_name_len(s, a) && forall|j: int| i <= j < a ==> !tool_open_at(s, j),
        tool_open_from(s, i) is None ==> forall|j: int| i <= j ==> !tool_open_at(s, j),
    decreases s.len() - i,
{
    if i < s.len() && !tool_open_at(s, i) {
        lemma_tool_from_min(s, i + 1);
    }
}

proof fn lemma_tool_first(s: Seq<char>, i: int, k: int)
    requires
        0 <= i <= k,
        tool_open_at(s, k),
        forall|j: int| i <= j < k ==> !tool_open_at(s, j),
    ensures
        tool_open_from(s, i) == Some((k, k + 2 + tag_name_len(s, k))),
    decreases k - i,
{
    if i < k {
        lemma_tool_first(s, i + 1, k);
    }
}

/// A tool tag of `s` is a tool tag of `s + t`, with the same name.
proof fn lemma_tool_extend(s: Seq<char>, t: Seq<char>, i: int)
    requires
        tool_open_at(s, i),
    ensures
        tool_open_at(s + t, i),
        tag_name_len(s + t, i) == tag_name_len(s, i),
{
    let u = s + t;
    let n = tag_name_len(s, i) as int;
    let sn = s.subrange(i + 1, s.len() as int);
    let un = u.subrange(i + 1, u.len() as int);
    lemma_lead_len(sn, tag_char());
    assert forall|j: int| 0 <= j < n implies (tag_char())(#[trigger] un[j]) by {
        assert(un[j] == sn[j]);
    }
    assert(un[n] == s[i + 1 + n]);
    lemma_lead_len_unique(un, tag_char(), n);
}

/// A tool tag of `s + t` that starts in `s` but is not a tag of `s` runs
/// past the end of `s`, and all of `s` after its `<` is name characters.
proof fn lemma_tool_crossing(s: Seq<char>, t: Seq<char>, q: int)
    requires
        tool_open_at(s + t, q),
        0 <= q < s.len(),
        !tool_open_at(s, q),
    ensures
        q + 1 + tag_name_len(s + t, q) >= s.len(),
        forall|j: int| q < j < s.len() ==> is_tag_char(#[trigger] s[j]),
{
    let u = s + t;
    let n = tag_name_len(u, q) as int;
    let un = u.subrange(q + 1, u.len() as int);
    lemma_lead_len(un, tag_char());
    if q + 1 + n < s.len() {
        let sn = s.subrange(q + 1, s.len() as int);
        assert forall|j: int| 0 <= j < n implies (tag_char())(#[trigger] sn[j]) by {
            assert(sn[j] == un[j]);
        }
        assert(sn[n] == un[n]);
        lemma_lead_len_unique(sn, tag_char(), n);
        assert(tool_open_at(s, q));
    }
    assert forall|j: int| q < j < s.len() implies is_tag_char(#[trigger] s[j]) by {
        assert(un[j - q - 1] == s[j]);
        assert((tag_char())(un[j - q - 1]));
    }
}

/// `<think>` is itself a tool tag.
proof fn lemma_think_is_tool(s: Seq<char>, k: int)
    requires
        occurs_at(s, THINK_OPEN@, k),
    ensures
        tool_open_at(s, k),
        tag_name_len(s, k) == 5,
{
    lemma_think_chars();
    let sn = s.subrange(k + 1, s.len() as int);
    assert forall|j: int| 0 <= j < 5 implies (tag_char())(#[trigger] sn[j]) by {
        lemma_occurs_char(s, THINK_OPEN@, k, j + 1);
        assert(sn[j] == s[k + 1 + j]);
    }
    lemma_occurs_char(s, THINK_OPEN@, k, 6);
    lemma_occurs_char(s, THINK_OPEN@, k, 0);
    assert(sn[5] == s[k + 6]);
    lemma_lead_len_unique(sn, tag_char(), 5);
}

/// The first `<think>` of `s` is the first of `s + t`.
proof fn lemma_think_stable(s: Seq<char>, t: Seq<char>)
    requires
        find(s, THINK_OPEN@) is Some,
    ensures
        find(s + t, THINK_OPEN@) == find(s, THINK_OPEN@),
{
    lemma_think_chars();
    let u = s + t;
    lemma_find_from(s, THINK_OPEN@, 0);
    let k = find(s, THINK_OPEN@)->Some_0;
    lemma_occurs_extend(s, t, THINK_OPEN@, k);
    assert forall|j: int| 0 <= j < k implies !occurs_at(u, THINK_OPEN@, j) by {
        if occurs_at(u, THINK_OPEN@, j) {
            if j + 7 <= s.len() {
                lemma_occurs_shrink(s, t, THINK_OPEN@, j);
            } else {
                lemma_occurs_char(s, THINK_OPEN@, k, 0);
            }
        }
    }
    lemma_find_first(u, THINK_OPEN@, 0, k);
}

/// The first tool tag of `s` is the first of `s + t`.
proof fn lemma_tool_stable(s: Seq<char>, t: Seq<char>)
    requires
        spec_find_tool_open(s) is Some,
    ensures
        spec_find_tool_open(s + t) == spec_find_tool_open(s),
{
    lemma_think_chars();
    let u = s + t;
    lemma_tool_from_min(s, 0);
    let (a, b) = spec_find_tool_open(s)->Some_0;
    lemma_tool_extend(s, t, a);
    assert forall|j: int| 0 <= j < a implies !tool_open_at(u, j) by {
        if tool_open_at(u, j) {
            lemma_tool_crossing(s, t, j);
            assert(is_tag_char(s[a]));
        }
    }
    lemma_tool_first(u, 0, a);
}

/// With a tool tag first in `s` and no `<think>` in `s`, none of `s + t`
/// comes at or before that tag.
proof fn lemma_no_earlier_think(s: Seq<char>, t: Seq<char>, a: int)
    requires
        find(s, THINK_OPEN@) is None,
        spec_find_tool_open(s) matches Some((x, _)) && x == a,
    ensures
        forall|q: int| 0 <= q <= a ==> !occurs_at(s + t, THINK_OPEN@, q),
{
    lemma_think_chars();
    let u = s + t;
    lemma_find_from(s, THINK_OPEN@, 0);
    lemma_tool_from_min(s, 0);
    let n = tag_name_len(s, a) as int;
    assert forall|q: int| 0 <= q <= a implies !occurs_at(u, THINK_OPEN@, q) by {
        if occurs_at(u, THINK_OPEN@, q) {
            if q + 7 <= s.len() {
                lemma_occurs_shrink(s, t, THINK_OPEN@, q);
            } else if q < a {
                lemma_occurs_char(u, THINK_OPEN@, q, a - q);
            } else {
                // q == a: the tag's closing `>` lies in `s`, where `<think>`
                // still has name characters
                lemma_lead_len(s.subrange(a + 1, s.len() as int), tag_char());
                assert(s.subrange(a + 1, s.len() as int)[n] == s[a + 1 + n]);
                lemma_occurs_char(u, THINK_OPEN@, a, 1 + n);
            }
        }
    }
}

/// A tag that `scan_normal` finds stays found, at the same place, however
/// the text goes on: the safe text is unchanged and what follows the tag
/// grows by what was appended.
pub proof fn lemma_scan_found_tag_stable(s: Seq<char>, t: Seq<char>)
    requires
        spec_scan_normal(s).2 != ""@,
    ensures
        spec_scan_normal(s + t) == (
            spec_scan_normal(s).0,
            spec_scan_normal(s).1 + t,
            spec_scan_normal(s).2,
        ),
{
    lemma_tags();
    lemma_think_chars();
    let u = s + t;
    lemma_find_from(s, THINK_OPEN@, 0);
    lemma_tool_from_min(s, 0);
    let think = find(s, THINK_OPEN@);
    let tool = spec_find_tool_open(s);
    if think is Some {
        let k = think->Some_0;
        lemma_think_stable(s, t);
        lemma_think_is_tool(s, k);
        assert(tool is Some);
    }
    if tool is Some {
        lemma_tool_stable(s, t);
    }
    let think_first = match (think, tool) {
        (Some(k), Some((a, _))) => k <= a,
        (Some(_), None) => true,
        _ => false,
    };
    if think_first {
        let k = think->Some_0;
        assert(u.take(k) =~= s.take(k));
        assert(u.skip(k + 7) =~= s.skip(k + 7) + t);
    } else {
        let (a, b) = tool->Some_0;
        if think is None {
            lemma_no_earlier_think(s, t, a);
            lemma_find_from(u, THINK_OPEN@, 0);
        }
        assert(b <= s.len()) by {
            lemma_lead_len(s.subrange(a + 1, s.len() as int), tag_char());
        }
        assert(u.take(a) =~= s.take(a));
        assert(u.skip(b) =~= s.skip(b) + t);
    }
}

// ── Held-back tails ────────────────────────────────────────────────────────

/// The suffix of length `l` of `text` is a prefix of `needle`.
pub open spec fn tail_is_prefix(text: Seq<char>, needle: Seq<char>, l: int) -> bool {
    occurs_at(text, needle.take(l), text.len() - l)
}

/// `spec_suffix_prefix_from` picks the longest length up to `len` whose
/// suffix is a prefix of the needle.
proof fn lemma_spf_char(text: Seq<char>, needle: Seq<char>, len: int)
    ensures
        spec_suffix_prefix_from(text, needle, len) <= if len < 0 {
            0
        } else {
            len
        },
        spec_suffix_prefix_from(text, needle, len) > 0 ==> tail_is_prefix(
            text,
            needle,
            spec_suffix_prefix_from(text, needle, len) as int,
        ),
        forall|l: int|
            spec_suffix_prefix_from(text, needle, len) < l <= len ==> !#[trigger] tail_is_prefix(
                text,
                needle,
                l,
            ),
    decreases len,
{
    if len > 0 && !occurs_at(text, needle.take(len), text.len() - len) {
        lemma_spf_char(text, needle, len - 1);
    }
}

proof fn lemma_trail_len_unique(s: Seq<char>, f: spec_fn(char) -> bool, n: int)
    requires
        0 <= n <= s.len(),
        forall|j: int| s.len() - n <= j < s.len() ==> f(#[trigger] s[j]),
        n < s.len() ==> !f(s[s.len() - n - 1]),
    ensures
        trail_len(s, f) == n,
{
    lemma_trail_len(s, f);
    let m = trail_len(s, f) as int;
    if m < n {
        assert(f(s[s.len() - m - 1]));
    } else if m > n {
        assert(f(s[s.len() - n - 1]));
    }
}

/// The hold of `scan_normal` when no complete tag is present.
pub open spec fn hold_of(s: Seq<char>) -> nat {
    let a = spec_suffix_prefix_len(s, THINK_OPEN@);
    let b = spec_trailing_tool_tag_len(s);
    if a >= b {
        a
    } else {
        b
    }
}

proof fn lemma_hold_bound(s: Seq<char>)
    ensures
        hold_of(s) <= s.len(),
        spec_suffix_prefix_len(s, THINK_OPEN@) <= 7,
{
    lemma_think_chars();
    let len = if 7 < s.len() {
        7int
    } else {
        s.len() as int
    };
    lemma_spf_char(s, THINK_OPEN@, len);
    lemma_trail_len(s, tag_char());
}

/// A start of `<think>` that runs to the end of `s` from `q` is held back.
proof fn lemma_think_start_held(s: Seq<char>, q: int)
    requires
        0 <= q < s.len(),
        s.len() - q <= 7,
        tail_is_prefix(s, THINK_OPEN@, s.len() - q),
    ensures
        hold_of(s) >= s.len() - q,
{
    lemma_think_chars();
    let len = if 7 < s.len() {
        7int
    } else {
        s.len() as int
    };
    lemma_spf_char(s, THINK_OPEN@, len);
}

/// A `<` followed by name characters to the end of `s` is held back.
proof fn lemma_tool_start_held(s: Seq<char>, q: int)
    requires
        0 <= q < s.len(),
        s[q] == '<',
        forall|j: int| q < j < s.len() ==> is_tag_char(#[trigger] s[j]),
    ensures
        hold_of(s) >= s.len() - q,
        spec_trailing_tool_tag_len(s) == s.len() - q,
{
    lemma_think_chars();
    lemma_trail_len_unique(s, tag_char(), s.len() - q - 1);
}

proof fn lemma_shift_occurs(safe: Seq<char>, v: Seq<char>, p: Seq<char>, j: int)
    requires
        0 <= j,
    ensures
        occurs_at(safe + v, p, safe.len() + j) == occurs_at(v, p, j),
{
    let u = safe + v;
    let m = safe.len() as int;
    if j + p.len() <= v.len() {
        assert(u.subrange(m + j, m + j + p.len()) =~= v.subrange(j, j + p.len()));
    }
}

proof fn lemma_shift_tool(safe: Seq<char>, v: Seq<char>, j: int)
    requires
        0 <= j,
    ensures
        tool_open_at(safe + v, safe.len() + j) == tool_open_at(v, j),
        j < v.len() ==> tag_name_len(safe + v, safe.len() + j) == tag_name_len(v, j),
{
    let u = safe + v;
    let m = safe.len() as int;
    if j < v.len() {
        assert(u.subrange(m + j + 1, u.len() as int) =~= v.subrange(j + 1, v.len() as int));
    }
}

/// With no complete tag in `s`, scanning `s + t` emits the safe part of `s`
/// and then does what scanning the held-back tail plus `t` does: holding
/// back never loses or reorders text, whatever comes next.
pub proof fn lemma_scan_held_tail(s: Seq<char>, t: Seq<char>)
    requires
        spec_scan_normal(s).2 == ""@,
    ensures
        spec_scan_normal(s + t) == (
            spec_scan_normal(s).0 + spec_scan_normal(spec_scan_normal(s).1 + t).0,
            spec_scan_normal(spec_scan_normal(s).1 + t).1,
            spec_scan_normal(spec_scan_normal(s).1 + t).2,
        ),
{
    lemma_tags();
    lemma_think_chars();
    lemma_hold_bound(s);
    let u = s + t;
    let h = hold_of(s) as int;
    let m = s.len() - h;
    let safe = s.take(m);
    let rest = s.skip(m);
    let v = rest + t;
    assert(u =~= safe + v);
    lemma_find_from(s, THINK_OPEN@, 0);
    lemma_tool_from_min(s, 0);
    // no complete tag in `s`
    if find(s, THINK_OPEN@) is Some {
        lemma_think_is_tool(s, find(s, THINK_OPEN@)->Some_0);
    }
    assert(find(s, THINK_OPEN@) is None && spec_find_tool_open(s) is None);
    assert(spec_scan_normal(s) == (safe, rest, ""@));
    // nothing that starts in the safe part is a tag of `u` or the start of one
    assert forall|q: int| 0 <= q < m implies !occurs_at(u, THINK_OPEN@, q) by {
        if occurs_at(u, THINK_OPEN@, q) {
            if q + 7 <= s.len() {
                lemma_occurs_shrink(s, t, THINK_OPEN@, q);
            } else {
                assert(tail_is_prefix(s, THINK_OPEN@, s.len() - q)) by {
                    assert(s.subrange(q, s.len() as int) =~= THINK_OPEN@.take(s.len() - q)) by {
                        assert forall|j: int| 0 <= j < s.len() - q implies s.subrange(
                            q,
                            s.len() as int,
                        )[j] == THINK_OPEN@.take(s.len() - q)[j] by {
                            lemma_occurs_char(u, THINK_OPEN@, q, j);
                        }
                    }
                }
                lemma_think_start_held(s, q);
            }
        }
    }
    assert forall|q: int| 0 <= q < m implies !tool_open_at(u, q) by {
        if tool_open_at(u, q) {
            lemma_tool_crossing(s, t, q);
            lemma_tool_start_held(s, q);
        }
    }
    // the searches in `u` are those in `v`, shifted by the safe part
    let think_v = find(v, THINK_OPEN@);
    let tool_v = spec_find_tool_open(v);
    lemma_find_from(v, THINK_OPEN@, 0);
    lemma_find_from(u, THINK_OPEN@, 0);
    lemma_tool_from_min(v, 0);
    lemma_tool_from_min(u, 0);
    match think_v {
        Some(k) => {
            lemma_shift_occurs(safe, v, THINK_OPEN@, k);
            assert forall|q: int| 0 <= q < m + k implies !occurs_at(u, THINK_OPEN@, q) by {
                if q >= m {
                    lemma_shift_occurs(safe, v, THINK_OPEN@, q - m);
                }
            }
            lemma_find_first(u, THINK_OPEN@, 0, m + k);
        },
        None => {
            if find(u, THINK_OPEN@) is Some {
                let q = find(u, THINK_OPEN@)->Some_0;
                lemma_shift_occurs(safe, v, THINK_OPEN@, q - m);
            }
        },
    }
    match tool_v {
        Some((a, b)) => {
            lemma_shift_tool(safe, v, a);
            assert forall|q: int| 0 <= q < m + a implies !tool_open_at(u, q) by {
                if q >= m {
                    lemma_shift_tool(safe, v, q - m);
                }
            }
            lemma_tool_first(u, 0, m + a);
        },
        None => {
            if spec_find_tool_open(u) is Some {
                let q = spec_find_tool_open(u)->Some_0.0;
                lemma_shift_tool(safe, v, q - m);
            }
        },
    }
    if think_v is Some || tool_v is Some {
        let think_first = match (think_v, tool_v) {
            (Some(k), Some((a, _))) => k <= a,
            (Some(_), None) => true,
            _ => false,
        };
        if think_first {
            let k = think_v->Some_0;
            assert(u.take(m + k) =~= safe + v.take(k));
            assert(u.skip(m + k + 7) =~= v.skip(k + 7));
        } else {
            let (a, b) = tool_v->Some_0;
            assert(u.take(m + a) =~= safe + v.take(a));
            assert(u.skip(m + b) =~= v.skip(b));
        }
    } else {
        lemma_held_tail_same_hold(s, t);
        lemma_hold_bound(v);
        let hv = hold_of(v) as int;
        assert(u.take(u.len() - hv) =~= safe + v.take(v.len() - hv));
        assert(u.skip(u.len() - hv) =~= v.skip(v.len() - hv));
    }
}

/// With no complete tag in `s`, the hold of `s + t` is that of the held
/// tail plus `t`.
proof fn lemma_held_tail_same_hold(s: Seq<char>, t: Seq<char>)
    requires
        spec_scan_normal(s).2 == ""@,
        find(s, THINK_OPEN@) is None,
        spec_find_tool_open(s) is None,
    ensures
        hold_of(s + t) == hold_of(s.skip(s.len() - hold_of(s)) + t),
{
    lemma_think_chars();
    lemma_hold_bound(s);
    let u = s + t;
    let h = hold_of(s) as int;
    let m = s.len() - h;
    let safe = s.take(m);
    let v = s.skip(m) + t;
    assert(u =~= safe + v);
    // suffixes of length up to |v| are the same in u and v
    assert forall|l: int| 0 <= l <= v.len() && l <= 7 implies #[trigger] tail_is_prefix(
        u,
        THINK_OPEN@,
        l,
    ) == tail_is_prefix(v, THINK_OPEN@, l) by {
        assert(u.subrange(u.len() - l, u.len() as int) =~= v.subrange(v.len() - l, v.len() as int));
    }
    // a longer suffix of u that starts a `<think>` would start in the safe part
    assert forall|l: int| v.len() < l <= 7 && l <= u.len() implies !#[trigger] tail_is_prefix(
        u,
        THINK_OPEN@,
        l,
    ) by {
        if tail_is_prefix(u, THINK_OPEN@, l) {
            let q = u.len() - l;
            assert(q < m);
            assert(tail_is_prefix(s, THINK_OPEN@, s.len() - q)) by {
                assert forall|j: int| 0 <= j < s.len() - q implies s.subrange(q, s.len() as int)[j]
                    == THINK_OPEN@.take(s.len() - q)[j] by {
                    lemma_occurs_char(u, THINK_OPEN@.take(l), q, j);
                }
                assert(s.subrange(q, s.len() as int) =~= THINK_OPEN@.take(s.len() - q));
            }
            lemma_think_start_held(s, q);
        }
    }
    let lu = if 7 < u.len() {
        7int
    } else {
        u.len() as int
    };
    let lv = if 7 < v.len() {
        7int
    } else {
        v.len() as int
    };
    lemma_spf_char(u, THINK_OPEN@, lu);
    lemma_spf_char(v, THINK_OPEN@, lv);
    let au = spec_suffix_prefix_len(u, THINK_OPEN@) as int;
    let av = spec_suffix_prefix_len(v, THINK_OPEN@) as int;
    if au > lv {
        assert(tail_is_prefix(u, THINK_OPEN@, au));
    }
    if au < av {
        assert(tail_is_prefix(v, THINK_OPEN@, av));
        assert(tail_is_prefix(u, THINK_OPEN@, av));
    }
    if av < au {
        assert(tail_is_prefix(u, THINK_OPEN@, au));
        assert(tail_is_prefix(v, THINK_OPEN@, au));
    }
    assert(au == av);
    // the trailing partial tool tags agree too
    lemma_trail_len(u, tag_char());
    lemma_trail_len(v, tag_char());
    let ku = trail_len(u, tag_char()) as int;
    let kv = trail_len(v, tag_char()) as int;
    let bu = spec_trailing_tool_tag_len(u) as int;
    let bv = spec_trailing_tool_tag_len(v) as int;
    if bu > v.len() {
        let q = u.len() - bu;
        assert(q < m);
        assert forall|j: int| q < j < s.len() implies is_tag_char(#[trigger] s[j]) by {
            assert(u[j] == s[j]);
            assert((tag_char())(u[j]));
        }
        assert(u[q] == s[q]);
        lemma_tool_start_held(s, q);
    }
    if kv < v.len() {
        assert forall|j: int| u.len() - kv <= j < u.len() implies (tag_char())(#[trigger] u[j]) by {
            assert(u[j] == v[j - m]);
        }
        assert(u[u.len() - kv - 1] == v[v.len() - kv - 1]);
        lemma_trail_len_unique(u, tag_char(), kv);
        if kv < u.len() {
            assert(u[u.len() - kv - 1] == v[v.len() - kv - 1]);
        }
    } else {
        // v is all name characters: a `<` before it would start in the safe part
        assert(bv == 0);
        if bu > 0 {
            assert(ku >= kv) by {
                if ku < kv {
                    assert(u[u.len() - ku - 1] == v[v.len() - ku - 1]);
                    assert((tag_char())(v[v.len() - ku - 1]));
                }
            }
        }
    }
}

// ── Closing tags ───────────────────────────────────────────────────────────

/// `<` opens the needle and occurs nowhere else in it.
pub open spec fn opens_with_only_lt(n: Seq<char>) -> bool {
    &&& n.len() > 0
    &&& n[0] == '<'
    &&& forall|i: int| 1 <= i < n.len() ==> n[i] != '<'
}

proof fn lemma_close_chars()
    ensures
        THINK_CLOSE@.len() == 8,
        opens_with_only_lt(THINK_CLOSE@),
{
    reveal_strlit("</think>");
}

/// The first occurrence of such a needle in `s` is the first in `s + t`.
proof fn lemma_needle_stable(s: Seq<char>, t: Seq<char>, n: Seq<char>)
    requires
        opens_with_only_lt(n),
        find(s, n) is Some,
    ensures
        find(s + t, n) == find(s, n),
{
    let u = s + t;
    lemma_find_from(s, n, 0);
    let k = find(s, n)->Some_0;
    lemma_occurs_extend(s, t, n, k);
    assert forall|j: int| 0 <= j < k implies !occurs_at(u, n, j) by {
        if occurs_at(u, n, j) {
            if j + n.len() <= s.len() {
                lemma_occurs_shrink(s, t, n, j);
            } else {
                lemma_occurs_char(s, n, k, 0);
                lemma_occurs_char(u, n, j, k - j);
            }
        }
    }
    lemma_find_first(u, n, 0, k);
}

/// Without an occurrence of such a needle in `s`, the search in `s + t`
/// is the search in the held-back tail plus `t`, shifted, and the tail held
/// back at the end is the same.
proof fn lemma_needle_held_tail(s: Seq<char>, t: Seq<char>, n: Seq<char>)
    requires
        opens_with_only_lt(n),
        find(s, n) is None,
    ensures
        ({
            let h = spec_suffix_prefix_len(s, n) as int;
            let m = s.len() - h;
            let v = s.skip(m) + t;
            &&& 0 <= h <= s.len()
            &&& match find(v, n) {
                Some(k) => find(s + t, n) == Some(m + k),
                None => find(s + t, n) is None && spec_suffix_prefix_len(s + t, n)
                    == spec_suffix_prefix_len(v, n),
            }
        }),
{
    let ls = if n.len() < s.len() {
        n.len() as int
    } else {
        s.len() as int
    };
    lemma_spf_char(s, n, ls);
    let h = spec_suffix_prefix_len(s, n) as int;
    let m = s.len() - h;
    let safe = s.take(m);
    let v = s.skip(m) + t;
    let u = s + t;
    assert(u =~= safe + v);
    lemma_find_from(s, n, 0);
    // a start of the needle inside `s` that runs to its end is held back
    assert forall|q: int| 0 <= q < s.len() && s.len() - q <= n.len() && #[trigger] occurs_at(
        s,
        n.take(s.len() - q),
        q,
    ) implies q >= m by {
        assert(tail_is_prefix(s, n, s.len() - q));
    }
    assert forall|q: int| 0 <= q < m implies !occurs_at(u, n, q) by {
        if occurs_at(u, n, q) {
            if q + n.len() <= s.len() {
                lemma_occurs_shrink(s, t, n, q);
            } else {
                assert(s.subrange(q, s.len() as int) =~= n.take(s.len() - q)) by {
                    assert forall|j: int| 0 <= j < s.len() - q implies s.subrange(
                        q,
                        s.len() as int,
                    )[j] == n.take(s.len() - q)[j] by {
                        lemma_occurs_char(u, n, q, j);
                    }
                }
                assert(occurs_at(s, n.take(s.len() - q), q));
            }
        }
    }
    lemma_find_from(v, n, 0);
    lemma_find_from(u, n, 0);
    match find(v, n) {
        Some(k) => {
            lemma_shift_occurs(safe, v, n, k);
            assert forall|q: int| 0 <= q < m + k implies !occurs_at(u, n, q) by {
                if q >= m {
                    lemma_shift_occurs(safe, v, n, q - m);
                }
            }
            lemma_find_first(u, n, 0, m + k);
        },
        None => {
            if find(u, n) is Some {
                let q = find(u, n)->Some_0;
                lemma_shift_occurs(safe, v, n, q - m);
            }
            let lu = if n.len() < u.len() {
                n.len() as int
            } else {
                u.len() as int
            };
            let lv = if n.len() < v.len() {
                n.len() as int
            } else {
                v.len() as int
            };
            lemma_spf_char(u, n, lu);
            lemma_spf_char(v, n, lv);
            assert forall|l: int| 0 <= l <= v.len() && l <= n.len() implies #[trigger] tail_is_prefix(
                u,
                n,
                l,
            ) == tail_is_prefix(v, n, l) by {
                assert(u.subrange(u.len() - l, u.len() as int) =~= v.subrange(
                    v.len() - l,
                    v.len() as int,
                ));
            }
            assert forall|l: int| v.len() < l <= n.len() && l <= u.len() implies !#[trigger] tail_is_prefix(
                u,
                n,
                l,
            ) by {
                if tail_is_prefix(u, n, l) {
                    let q = u.len() - l;
                    assert(s.subrange(q, s.len() as int) =~= n.take(s.len() - q)) by {
                        assert forall|j: int| 0 <= j < s.len() - q implies s.subrange(
                            q,
                            s.len() as int,
                        )[j] == n.take(s.len() - q)[j] by {
                            lemma_occurs_char(u, n.take(l), q, j);
                        }
                    }
                    assert(occurs_at(s, n.take(s.len() - q), q));
                }
            }
            let au = spec_suffix_prefix_len(u, n) as int;
            let av = spec_suffix_prefix_len(v, n) as int;
            if au > lv {
                assert(tail_is_prefix(u, n, au));
            }
            if au < av {
                assert(tail_is_prefix(v, n, av));
                assert(tail_is_prefix(u, n, av));
            }
            if av < au {
                assert(tail_is_prefix(u, n, au));
                assert(tail_is_prefix(v, n, au));
            }
        },
    }
}

// ── Chunking does not matter ───────────────────────────────────────────────

/// Where a character the stream puts out goes.
pub enum Channel {
    /// The visible response.
    Text,
    /// The reasoning block.
    Thought,
    /// The end of a reasoning block (its character is a placeholder).
    ThoughtEnd,
}

/// Each character of `t` as response text.
pub open spec fn shown_text(t: Seq<char>) -> Seq<(Channel, char)>
    decreases t.len(),
{
    if t.len() == 0 {
        seq![]
    } else {
        seq![(Channel::Text, t[0])] + shown_text(t.drop_first())
    }
}

/// Each character of `t` as reasoning.
pub open spec fn shown_thought(t: Seq<char>) -> Seq<(Channel, char)>
    decreases t.len(),
{
    if t.len() == 0 {
        seq![]
    } else {
        seq![(Channel::Thought, t[0])] + shown_thought(t.drop_first())
    }
}

/// The characters an action puts out.
pub open spec fn render_one(a: ActionModel) -> Seq<(Channel, char)> {
    match a {
        ActionModel::Emit(t) => shown_text(t),
        ActionModel::Think(t) => shown_thought(t),
        ActionModel::ThinkEnd => seq![(Channel::ThoughtEnd, ' ')],
        _ => seq![],
    }
}

/// The characters a sequence of actions puts out, in order.
pub open spec fn render(acts: Seq<ActionModel>) -> Seq<(Channel, char)>
    decreases acts.len(),
{
    if acts.len() == 0 {
        seq![]
    } else {
        render_one(acts[0]) + render(acts.drop_first())
    }
}

proof fn lemma_render_concat(a: Seq<ActionModel>, b: Seq<ActionModel>)
    ensures
        render(a + b) == render(a) + render(b),
    decreases a.len(),
{
    if a.len() == 0 {
        assert(a + b =~= b);
    } else {
        assert((a + b).drop_first() =~= a.drop_first() + b);
        lemma_render_concat(a.drop_first(), b);
        assert(render(a + b) =~= render(a) + render(b));
    }
}

proof fn lemma_render_single(a: ActionModel)
    ensures
        render(seq![a]) == render_one(a),
{
    reveal_with_fuel(render, 2);
    assert(seq![a].drop_first() =~= Seq::<ActionModel>::empty());
    assert(render_one(a) + Seq::<(Channel, char)>::empty() =~= render_one(a));
}

#[verifier::spinoff_prover]
proof fn lemma_shown_text_concat(x: Seq<char>, y: Seq<char>)
    ensures
        shown_text(x + y) == shown_text(x) + shown_text(y),
        shown_thought(x + y) == shown_thought(x) + shown_thought(y),
        shown_text(Seq::<char>::empty()) == Seq::<(Channel, char)>::empty(),
        shown_thought(Seq::<char>::empty()) == Seq::<(Channel, char)>::empty(),
    decreases x.len(),
{
    reveal_with_fuel(shown_text, 2);
    reveal_with_fuel(shown_thought, 2);
    if x.len() == 0 {
        assert(x + y =~= y);
        assert(Seq::<(Channel, char)>::empty() + shown_text(y) =~= shown_text(y));
        assert(Seq::<(Channel, char)>::empty() + shown_thought(y) =~= shown_thought(y));
    } else {
        lemma_shown_text_concat(x.drop_first(), y);
        assert((x + y).drop_first() =~= x.drop_first() + y);
        assert((x + y)[0] == x[0]);
        assert(shown_text(x + y) =~= shown_text(x) + shown_text(y));
        assert(shown_thought(x + y) =~= shown_thought(x) + shown_thought(y));
    }
}

/// The action that shows a stretch of safe text, if it is not empty.
pub open spec fn emit_if(t: Seq<char>) -> Seq<ActionModel> {
    if t.len() > 0 {
        seq![ActionModel::Emit(t)]
    } else {
        seq![]
    }
}

proof fn lemma_render_emit_if(x: Seq<char>, y: Seq<char>)
    ensures
        render(emit_if(x + y)) == render(emit_if(x)) + render(emit_if(y)),
        render(emit_if(x)) == shown_text(x),
{
    lemma_shown_text_concat(x, y);
    lemma_render_single(ActionModel::Emit(x));
    lemma_render_single(ActionModel::Emit(y));
    lemma_render_single(ActionModel::Emit(x + y));
    assert(render(Seq::<ActionModel>::empty()) =~= Seq::<(Channel, char)>::empty());
    if x.len() == 0 {
        assert(x + y =~= y);
        assert(x =~= Seq::<char>::empty());
    }
    if y.len() == 0 {
        assert(x + y =~= x);
        assert(y =~= Seq::<char>::empty());
    }
}

proof fn lemma_render_think_if(thinking: bool, x: Seq<char>, y: Seq<char>)
    ensures
        render(think_if(thinking, x + y)) == render(think_if(thinking, x)) + render(
            think_if(thinking, y),
        ),
{
    lemma_shown_text_concat(x, y);
    lemma_render_single(ActionModel::Think(x));
    lemma_render_single(ActionModel::Think(y));
    lemma_render_single(ActionModel::Think(x + y));
    assert(render(Seq::<ActionModel>::empty()) =~= Seq::<(Channel, char)>::empty());
}

/// The two ways of processing `a + b` agree, given how each ends.
pub open spec fn split_agrees(st: StateModel, a: Seq<char>, b: Seq<char>, thinking: bool) -> bool {
    &&& text_step(st, a + b, thinking).0 == text_step(text_step(st, a, thinking).0, b, thinking).0
    &&& render(text_step(st, a + b, thinking).1) == render(text_step(st, a, thinking).1) + render(
        text_step(text_step(st, a, thinking).0, b, thinking).1,
    )
}

/// Normal streaming with no complete tag in the first piece.
proof fn lemma_split_streaming_held(tail: Seq<char>, a: Seq<char>, b: Seq<char>, thinking: bool)
    requires
        a.len() > 0,
        b.len() > 0,
        spec_scan_normal(tail + a).2 == ""@,
    ensures
        split_agrees(StateModel::Streaming(tail), a, b, thinking),
{
    lemma_tags();
    let c = tail + a;
    assert(tail + (a + b) =~= c + b);
    let (safe, rest, tag) = spec_scan_normal(c);
    lemma_scan_held_tail(c, b);
    let (x, y, tag2) = spec_scan_normal(rest + b);
    lemma_render_emit_if(safe, x);
    lemma_scan_normal_parts(rest + b);
    lemma_scan_normal_parts(c);
    assert(text_step(StateModel::Streaming(tail), a, thinking) == (
        StateModel::Streaming(rest),
        emit_if(safe),
    ));
    if rest + b =~= Seq::<char>::empty() {
        assert(false);
    }
    let ra = render(emit_if(safe));
    let rx = render(emit_if(x));
    if tag2 == THINK_OPEN@ {
        let (s3, a3) = text_step(StateModel::InThink(seq![]), y, thinking);
        lemma_render_concat(emit_if(safe + x), a3);
        lemma_render_concat(emit_if(x), a3);
        assert(text_step(StateModel::Streaming(rest), b, thinking) == (s3, emit_if(x) + a3));
        assert(text_step(StateModel::Streaming(tail), a + b, thinking) == (
            s3,
            emit_if(safe + x) + a3,
        ));
        assert(render(emit_if(safe + x) + a3) =~= ra + render(emit_if(x) + a3));
    } else if tag2 == TOOL_CALL_TAG@ {
        assert(text_step(StateModel::Streaming(rest), b, thinking) == (
            StateModel::InToolCall,
            emit_if(x),
        ));
        assert(text_step(StateModel::Streaming(tail), a + b, thinking) == (
            StateModel::InToolCall,
            emit_if(safe + x),
        ));
    } else {
        assert(text_step(StateModel::Streaming(rest), b, thinking) == (
            StateModel::Streaming(y),
            emit_if(x),
        ));
        assert(text_step(StateModel::Streaming(tail), a + b, thinking) == (
            StateModel::Streaming(y),
            emit_if(safe + x),
        ));
    }
}

/// Splitting the stream's text anywhere changes nothing: processing `a`
/// and then `b` ends in the state that processing `a + b` at once ends in,
/// and puts out the same characters (text, reasoning and block ends) in
/// the same order.
pub proof fn lemma_text_step_split(st: StateModel, a: Seq<char>, b: Seq<char>, thinking: bool)
    ensures
        split_agrees(st, a, b, thinking),
    decreases state_measure(st, a + b), 1int,
{
    lemma_tags();
    lemma_close_chars();
    let ab = a + b;
    if a.len() == 0 {
        assert(ab =~= b);
        assert(render(Seq::<ActionModel>::empty()) =~= Seq::<(Channel, char)>::empty());
        assert(Seq::<(Channel, char)>::empty() + render(text_step(st, b, thinking).1) =~= render(
            text_step(st, b, thinking).1,
        ));
        return;
    }
    if b.len() == 0 {
        assert(ab =~= a);
        assert(render(Seq::<ActionModel>::empty()) =~= Seq::<(Channel, char)>::empty());
        assert(render(text_step(st, a, thinking).1) + Seq::<(Channel, char)>::empty() =~= render(
            text_step(st, a, thinking).1,
        ));
        return;
    }
    match st {
        StateModel::InToolCall => {
            assert(render(Seq::<ActionModel>::empty()) =~= Seq::<(Channel, char)>::empty());
            assert(Seq::<(Channel, char)>::empty() + Seq::<(Channel, char)>::empty() =~= Seq::<(Channel, char)>::empty());
        },
        StateModel::Streaming(tail) => {
            let c = tail + a;
            lemma_scan_normal_parts(c);
            if spec_scan_normal(c).2 == ""@ {
                lemma_split_streaming_held(tail, a, b, thinking);
            } else {
                lemma_split_streaming_found(tail, a, b, thinking);
            }
        },
        StateModel::InThink(tail) => {
            let c = tail + a;
            lemma_find_from(c, THINK_CLOSE@, 0);
            if find(c, THINK_CLOSE@) is Some {
                lemma_split_think_found(tail, a, b, thinking);
            } else {
                lemma_split_think_held(tail, a, b, thinking);
            }
        },
    }
}

/// Normal streaming with a complete tag in the first piece.
proof fn lemma_split_streaming_found(tail: Seq<char>, a: Seq<char>, b: Seq<char>, thinking: bool)
    requires
        a.len() > 0,
        b.len() > 0,
        spec_scan_normal(tail + a).2 != ""@,
    ensures
        split_agrees(StateModel::Streaming(tail), a, b, thinking),
    decreases tail.len() + a.len() + b.len(), 0int,
{
    lemma_tags();
    let c = tail + a;
    assert(tail + (a + b) =~= c + b);
    lemma_scan_normal_parts(c);
    let (safe, rest, tag) = spec_scan_normal(c);
    lemma_scan_found_tag_stable(c, b);
    if tag == THINK_OPEN@ {
        let (s2, a2) = text_step(StateModel::InThink(seq![]), rest, thinking);
        lemma_text_step_split(StateModel::InThink(seq![]), rest, b, thinking);
        let (s3, a3) = text_step(StateModel::InThink(seq![]), rest + b, thinking);
        lemma_render_concat(emit_if(safe), a3);
        lemma_render_concat(emit_if(safe), a2);
        assert(text_step(StateModel::Streaming(tail), a, thinking) == (s2, emit_if(safe) + a2));
        assert(text_step(StateModel::Streaming(tail), a + b, thinking) == (s3, emit_if(safe) + a3));
        assert(render(emit_if(safe) + a2) + render(text_step(s2, b, thinking).1) =~= render(
            emit_if(safe),
        ) + (render(a2) + render(text_step(s2, b, thinking).1)));
    } else {
        assert(render(Seq::<ActionModel>::empty()) =~= Seq::<(Channel, char)>::empty());
        assert(render(emit_if(safe)) + Seq::<(Channel, char)>::empty() =~= render(emit_if(safe)));
        assert(text_step(StateModel::Streaming(tail), a, thinking) == (
            StateModel::InToolCall,
            emit_if(safe),
        ));
    }
}

/// Inside a reasoning block, with its end in the first piece.
proof fn lemma_split_think_found(tail: Seq<char>, a: Seq<char>, b: Seq<char>, thinking: bool)
    requires
        a.len() > 0,
        b.len() > 0,
        find(tail + a, THINK_CLOSE@) is Some,
    ensures
        split_agrees(StateModel::InThink(tail), a, b, thinking),
    decreases tail.len() + a.len() + b.len(), 0int,
{
    lemma_tags();
    lemma_close_chars();
    let c = tail + a;
    assert(tail + (a + b) =~= c + b);
    let close = THINK_CLOSE@;
    lemma_find_from(c, close, 0);
    let pos = find(c, close)->Some_0;
    lemma_needle_stable(c, b, close);
    let after = c.skip(pos + 8);
    assert((c + b).skip(pos + 8) =~= after + b);
    assert((c + b).take(pos) =~= c.take(pos));
    lemma_text_step_split(StateModel::Streaming(seq![]), after, b, thinking);
    let pre = think_if(thinking, c.take(pos)).push(ActionModel::ThinkEnd);
    let (s2, a2) = text_step(StateModel::Streaming(seq![]), after, thinking);
    let (s3, a3) = text_step(StateModel::Streaming(seq![]), after + b, thinking);
    lemma_render_concat(pre, a2);
    lemma_render_concat(pre, a3);
    assert(text_step(StateModel::InThink(tail), a, thinking) == (s2, pre + a2));
    assert(text_step(StateModel::InThink(tail), a + b, thinking) == (s3, pre + a3));
    assert(render(pre + a2) + render(text_step(s2, b, thinking).1) =~= render(pre) + (render(a2)
        + render(text_step(s2, b, thinking).1)));
}

/// Inside a reasoning block, with no end of it in the first piece.
#[verifier::spinoff_prover]
#[verifier::rlimit(40)]
proof fn lemma_split_think_held(tail: Seq<char>, a: Seq<char>, b: Seq<char>, thinking: bool)
    requires
        a.len() > 0,
        b.len() > 0,
        find(tail + a, THINK_CLOSE@) is None,
    ensures
        split_agrees(StateModel::InThink(tail), a, b, thinking),
{
    lemma_tags();
    lemma_close_chars();
    let c = tail + a;
    assert(tail + (a + b) =~= c + b);
    let close = THINK_CLOSE@;
    lemma_needle_held_tail(c, b, close);
    let h = spec_suffix_prefix_len(c, close) as int;
    let m = c.len() - h;
    let held = c.skip(m);
    let c2 = held + b;
    assert(text_step(StateModel::InThink(tail), a, thinking) == (
        StateModel::InThink(held),
        think_if(thinking, c.take(m)),
    ));
    lemma_find_from(c2, close, 0);
    match find(c2, close) {
        Some(k) => {
            assert((c + b).take(m + k) =~= c.take(m) + c2.take(k));
            assert((c + b).skip(m + k + 8) =~= c2.skip(k + 8));
            lemma_render_think_if(thinking, c.take(m), c2.take(k));
            let rest_acts = text_step(StateModel::Streaming(seq![]), c2.skip(k + 8), thinking).1;
            let one = think_if(thinking, c.take(m) + c2.take(k)).push(ActionModel::ThinkEnd);
            let two = think_if(thinking, c2.take(k)).push(ActionModel::ThinkEnd);
            assert(one =~= think_if(thinking, c.take(m) + c2.take(k)) + seq![ActionModel::ThinkEnd]);
            assert(two =~= think_if(thinking, c2.take(k)) + seq![ActionModel::ThinkEnd]);
            lemma_render_concat(
                think_if(thinking, c.take(m) + c2.take(k)),
                seq![ActionModel::ThinkEnd],
            );
            lemma_render_concat(think_if(thinking, c2.take(k)), seq![ActionModel::ThinkEnd]);
            lemma_render_concat(one, rest_acts);
            lemma_render_concat(two, rest_acts);
            assert(render(think_if(thinking, c.take(m))) + render(two + rest_acts) =~= render(
                one + rest_acts,
            ));
        },
        None => {
            let h2 = spec_suffix_prefix_len(c2, close) as int;
            let ls = if close.len() < c2.len() {
                close.len() as int
            } else {
                c2.len() as int
            };
            lemma_spf_char(c2, close, ls);
            assert((c + b).skip((c + b).len() - h2) =~= c2.skip(c2.len() - h2));
            assert((c + b).take((c + b).len() - h2) =~= c.take(m) + c2.take(c2.len() - h2));
            lemma_render_think_if(thinking, c.take(m), c2.take(c2.len() - h2));
        },
    }
}

} // verus!
