//! Character-level model of the string operations the library relies on.
//!
//! Every string is modelled by its view, a `Seq<char>`.  The spec functions
//! here state what the standard library's string methods compute
//! (`lines`, `split_whitespace`, `trim`, `find`, `replace`, `join`, ...), and
//! the executable helpers compute them on `Vec<char>` buffers.
use vstd::prelude::*;

verus! {

// ── Character classes ──────────────────────────────────────────────────────

/// `char::is_whitespace`: the Unicode `White_Space` property.
pub open spec fn is_ws(c: char) -> bool {
    ||| c == '\t'
    ||| c == '\n'
    ||| c == '\x0B'
    ||| c == '\x0C'
    ||| c == '\r'
    ||| c == ' '
    ||| c == '\u{85}'
    ||| c == '\u{A0}'
    ||| c == '\u{1680}'
    ||| ('\u{2000}' <= c && c <= '\u{200A}')
    ||| c == '\u{2028}'
    ||| c == '\u{2029}'
    ||| c == '\u{202F}'
    ||| c == '\u{205F}'
    ||| c == '\u{3000}'
}

pub fn is_whitespace(c: char) -> (b: bool)
    ensures
        b == is_ws(c),
{
    c == '\t' || c == '\n' || c == '\x0B' || c == '\x0C' || c == '\r' || c == ' ' || c == '\u{85}'
        || c == '\u{A0}' || c == '\u{1680}' || ('\u{2000}' <= c && c <= '\u{200A}') || c
        == '\u{2028}' || c == '\u{2029}' || c == '\u{202F}' || c == '\u{205F}' || c == '\u{3000}'
}

/// `char::is_ascii_alphabetic`.
pub open spec fn is_alpha(c: char) -> bool {
    ('a' <= c && c <= 'z') || ('A' <= c && c <= 'Z')
}

pub fn is_ascii_alphabetic(c: char) -> (b: bool)
    ensures
        b == is_alpha(c),
{
    ('a' <= c && c <= 'z') || ('A' <= c && c <= 'Z')
}

pub open spec fn ws() -> spec_fn(char) -> bool {
    |c: char| is_ws(c)
}

pub open spec fn not_ws() -> spec_fn(char) -> bool {
    |c: char| !is_ws(c)
}

// ── Prefix / suffix runs ───────────────────────────────────────────────────

/// Number of leading characters of `s` satisfying `f`.
pub open spec fn lead_len(s: Seq<char>, f: spec_fn(char) -> bool) -> nat
    decreases s.len(),
{
    if s.len() == 0 {
        0
    } else if f(s[0]) {
        1 + lead_len(s.drop_first(), f)
    } else {
        0
    }
}

/// Number of trailing characters of `s` satisfying `f`.
pub open spec fn trail_len(s: Seq<char>, f: spec_fn(char) -> bool) -> nat
    decreases s.len(),
{
    if s.len() == 0 {
        0
    } else if f(s.last()) {
        1 + trail_len(s.drop_last(), f)
    } else {
        0
    }
}

pub proof fn lemma_lead_len(s: Seq<char>, f: spec_fn(char) -> bool)
    ensures
        lead_len(s, f) <= s.len(),
        forall|i: int| 0 <= i < lead_len(s, f) ==> f(#[trigger] s[i]),
        lead_len(s, f) < s.len() ==> !f(s[lead_len(s, f) as int]),
    decreases s.len(),
{
    if s.len() > 0 && f(s[0]) {
        lemma_lead_len(s.drop_first(), f);
        assert forall|i: int| 0 <= i < lead_len(s, f) implies f(#[trigger] s[i]) by {
            if i > 0 {
                assert(s[i] == s.drop_first()[i - 1]);
            }
        }
    }
}

pub proof fn lemma_trail_len(s: Seq<char>, f: spec_fn(char) -> bool)
    ensures
        trail_len(s, f) <= s.len(),
        forall|i: int| s.len() - trail_len(s, f) <= i < s.len() ==> f(#[trigger] s[i]),
        trail_len(s, f) < s.len() ==> !f(s[s.len() - trail_len(s, f) - 1]),
    decreases s.len(),
{
    if s.len() > 0 && f(s.last()) {
        lemma_trail_len(s.drop_last(), f);
        assert forall|i: int| s.len() - trail_len(s, f) <= i < s.len() implies f(#[trigger] s[i]) by {
            if i < s.len() - 1 {
                assert(s[i] == s.drop_last()[i]);
            }
        }
    }
}

/// `lead_len` is determined by the characters it inspects.
pub proof fn lemma_lead_len_step(v: Seq<char>, i: int, j: int, f: spec_fn(char) -> bool)
    requires
        0 <= i < j <= v.len(),
    ensures
        f(v[i]) ==> lead_len(v.subrange(i, j), f) == 1 + lead_len(v.subrange(i + 1, j), f),
        !f(v[i]) ==> lead_len(v.subrange(i, j), f) == 0,
{
    assert(v.subrange(i, j).drop_first() =~= v.subrange(i + 1, j));
}

pub proof fn lemma_trail_len_step(v: Seq<char>, i: int, j: int, f: spec_fn(char) -> bool)
    requires
        0 <= i < j <= v.len(),
    ensures
        f(v[j - 1]) ==> trail_len(v.subrange(i, j), f) == 1 + trail_len(v.subrange(i, j - 1), f),
        !f(v[j - 1]) ==> trail_len(v.subrange(i, j), f) == 0,
{
    assert(v.subrange(i, j).drop_last() =~= v.subrange(i, j - 1));
}

/// `str::trim_start`.
pub open spec fn trim_start(s: Seq<char>) -> Seq<char> {
    s.skip(lead_len(s, ws()) as int)
}

/// `str::trim_end`.
pub open spec fn trim_end(s: Seq<char>) -> Seq<char> {
    s.take(s.len() - trail_len(s, ws()))
}

/// `str::trim`.
pub open spec fn trim(s: Seq<char>) -> Seq<char> {
    trim_end(trim_start(s))
}

/// Index just past the leading whitespace of `v[from..to]`.
pub fn skip_ws(v: &Vec<char>, from: usize, to: usize) -> (r: usize)
    requires
        from <= to <= v.len(),
    ensures
        r == from + lead_len(v@.subrange(from as int, to as int), ws()),
        from <= r <= to,
{
    let mut i = from;
    while i < to && is_whitespace(v[i])
        invariant
            from <= i <= to <= v.len(),
            lead_len(v@.subrange(from as int, to as int), ws()) == (i - from) + lead_len(
                v@.subrange(i as int, to as int),
                ws(),
            ),
        decreases to - i,
    {
        proof {
            lemma_lead_len_step(v@, i as int, to as int, ws());
        }
        i += 1;
    }
    proof {
        if i < to {
            lemma_lead_len_step(v@, i as int, to as int, ws());
        }
    }
    i
}

/// Index just past the leading non-whitespace of `v[from..to]`.
pub fn skip_non_ws(v: &Vec<char>, from: usize, to: usize) -> (r: usize)
    requires
        from <= to <= v.len(),
    ensures
        r == from + lead_len(v@.subrange(from as int, to as int), not_ws()),
        from <= r <= to,
{
    let mut i = from;
    while i < to && !is_whitespace(v[i])
        invariant
            from <= i <= to <= v.len(),
            lead_len(v@.subrange(from as int, to as int), not_ws()) == (i - from) + lead_len(
                v@.subrange(i as int, to as int),
                not_ws(),
            ),
        decreases to - i,
    {
        proof {
            lemma_lead_len_step(v@, i as int, to as int, not_ws());
        }
        i += 1;
    }
    proof {
        if i < to {
            lemma_lead_len_step(v@, i as int, to as int, not_ws());
        }
    }
    i
}

/// Index of the end of `v[from..to]` once its trailing whitespace is removed.
pub fn trim_ws_end(v: &Vec<char>, from: usize, to: usize) -> (r: usize)
    requires
        from <= to <= v.len(),
    ensures
        r == to - trail_len(v@.subrange(from as int, to as int), ws()),
        from <= r <= to,
{
    let mut j = to;
    while j > from && is_whitespace(v[j - 1])
        invariant
            from <= j <= to <= v.len(),
            trail_len(v@.subrange(from as int, to as int), ws()) == (to - j) + trail_len(
                v@.subrange(from as int, j as int),
                ws(),
            ),
        decreases j - from,
    {
        proof {
            lemma_trail_len_step(v@, from as int, j as int, ws());
        }
        j -= 1;
    }
    proof {
        if j > from {
            lemma_trail_len_step(v@, from as int, j as int, ws());
        }
    }
    j
}


// ── Conversions ────────────────────────────────────────────────────────────

/// Appends one character to a `String` (`String::push`).
#[verifier::external_body]
pub(crate) fn push_char(s: &mut String, c: char)
    ensures
        final(s)@ == old(s)@.push(c),
{
    s.push(c);
}

/// The characters of a string slice, in order.
pub fn chars_of(s: &str) -> (v: Vec<char>)
    ensures
        v@ == s@,
{
    broadcast use vstd::string::group_string_axioms;

    let mut v: Vec<char> = Vec::new();
    for c in it: s.chars()
        invariant
            it.seq() == s@,
            v@ == it.seq().take(it.index()),
    {
        v.push(c);
    }
    v
}

/// Builds a `String` from a sequence of characters.
pub fn string_of(v: &Vec<char>) -> (s: String)
    ensures
        s@ == v@,
{
    let mut s = String::new();
    let mut i: usize = 0;
    while i < v.len()
        invariant
            i <= v.len(),
            s@ == v@.take(i as int),
        decreases v.len() - i,
    {
        push_char(&mut s, v[i]);
        i += 1;
        assert(v@.take(i as int) == v@.take((i - 1) as int).push(v@[i - 1]));
    }
    assert(v@.take(v.len() as int) == v@);
    s
}

/// Copies `v[from..to]`.
pub fn slice_chars(v: &Vec<char>, from: usize, to: usize) -> (r: Vec<char>)
    requires
        from <= to <= v.len(),
    ensures
        r@ == v@.subrange(from as int, to as int),
{
    let mut r: Vec<char> = Vec::new();
    let mut i = from;
    while i < to
        invariant
            from <= i <= to <= v.len(),
            r@ == v@.subrange(from as int, i as int),
        decreases to - i,
    {
        r.push(v[i]);
        i += 1;
        assert(r@ =~= v@.subrange(from as int, i as int));
    }
    r
}

/// Appends `src[from..to]` to `out`.
pub fn push_range(out: &mut Vec<char>, src: &Vec<char>, from: usize, to: usize)
    requires
        from <= to <= src.len(),
    ensures
        final(out)@ == old(out)@ + src@.subrange(from as int, to as int),
{
    let ghost start = out@;
    let mut i = from;
    while i < to
        invariant
            from <= i <= to <= src.len(),
            out@ == start + src@.subrange(from as int, i as int),
        decreases to - i,
    {
        out.push(src[i]);
        i += 1;
        assert(out@ =~= start + src@.subrange(from as int, i as int));
    }
}

/// Appends all of `src` to `out`.
pub fn push_all(out: &mut Vec<char>, src: &Vec<char>)
    ensures
        final(out)@ == old(out)@ + src@,
{
    push_range(out, src, 0, src.len());
    assert(src@.subrange(0, src@.len() as int) =~= src@);
}

/// Appends the characters of `s` to `out`.
pub fn push_str(out: &mut Vec<char>, s: &str)
    ensures
        final(out)@ == old(out)@ + s@,
{
    let v = chars_of(s);
    push_all(out, &v);
}

// ── Occurrences ────────────────────────────────────────────────────────────

/// `p` occurs in `s` starting at index `i`.
pub open spec fn occurs_at(s: Seq<char>, p: Seq<char>, i: int) -> bool {
    0 <= i && i + p.len() <= s.len() && s.subrange(i, i + p.len()) == p
}

/// `str::starts_with`.
pub open spec fn starts_with(s: Seq<char>, p: Seq<char>) -> bool {
    occurs_at(s, p, 0)
}

/// `str::ends_with`.
pub open spec fn ends_with(s: Seq<char>, p: Seq<char>) -> bool {
    occurs_at(s, p, s.len() - p.len())
}

/// First index `>= i` at which `p` occurs in `s` (`str::find` from `i`).
pub open spec fn find_from(s: Seq<char>, p: Seq<char>, i: int) -> Option<int>
    decreases s.len() + 1 - i,
{
    if i < 0 || i + p.len() > s.len() {
        None
    } else if occurs_at(s, p, i) {
        Some(i)
    } else {
        find_from(s, p, i + 1)
    }
}

/// `str::find`.
pub open spec fn find(s: Seq<char>, p: Seq<char>) -> Option<int> {
    find_from(s, p, 0)
}

/// `str::contains`.
pub open spec fn contains(s: Seq<char>, p: Seq<char>) -> bool {
    find(s, p) is Some
}

pub proof fn lemma_find_from(s: Seq<char>, p: Seq<char>, i: int)
    requires
        0 <= i,
    ensures
        find_from(s, p, i) matches Some(k) ==> i <= k && occurs_at(s, p, k) && forall|j: int|
            i <= j < k ==> !occurs_at(s, p, j),
        find_from(s, p, i) is None ==> forall|j: int| i <= j ==> !occurs_at(s, p, j),
    decreases s.len() + 1 - i,
{
    if i + p.len() > s.len() {
    } else if occurs_at(s, p, i) {
    } else {
        lemma_find_from(s, p, i + 1);
    }
}

/// `contains` holds exactly when some occurrence exists.
pub proof fn lemma_contains(s: Seq<char>, p: Seq<char>)
    ensures
        contains(s, p) <==> exists|j: int| occurs_at(s, p, j),
{
    lemma_find_from(s, p, 0);
    if let Some(k) = find(s, p) {
        assert(occurs_at(s, p, k));
    }
}

/// Whether `p` occurs in `v` at index `i`.
pub fn matches_at(v: &Vec<char>, i: usize, p: &Vec<char>) -> (b: bool)
    ensures
        b == occurs_at(v@, p@, i as int),
{
    if i > v.len() || p.len() > v.len() - i {
        return false;
    }
    let mut k: usize = 0;
    while k < p.len()
        invariant
            i + p.len() <= v.len(),
            k <= p.len(),
            forall|t: int| 0 <= t < k ==> v@[i + t] == p@[t],
        decreases p.len() - k,
    {
        if v[i + k] != p[k] {
            assert(v@.subrange(i as int, i + p.len())[k as int] != p@[k as int]);
            return false;
        }
        k += 1;
    }
    assert(v@.subrange(i as int, i + p.len()) =~= p@);
    true
}

/// `find_from` on a character buffer.
pub fn find_chars(v: &Vec<char>, p: &Vec<char>, from: usize) -> (r: Option<usize>)
    ensures
        r matches Some(k) ==> find_from(v@, p@, from as int) == Some(k as int),
        r is None ==> find_from(v@, p@, from as int) is None,
{
    let mut i = from;
    while i <= v.len() && p.len() <= v.len() - i
        invariant
            from <= i,
            find_from(v@, p@, from as int) == find_from(v@, p@, i as int),
        decreases v.len() + 1 - i,
    {
        if matches_at(v, i, p) {
            return Some(i);
        }
        if i == v.len() {
            assert(v@.subrange(i as int, i as int) =~= p@);
            return None;
        }
        i += 1;
    }
    None
}

/// The deep view of a character buffer is its view.
pub proof fn lemma_deep_view_chars(v: &Vec<char>)
    ensures
        v.deep_view() == v@,
{
    assert(v.deep_view() =~= v@);
}

// ── Lines ──────────────────────────────────────────────────────────────────

pub open spec fn not_nl() -> spec_fn(char) -> bool {
    |c: char| c != '\n'
}

/// A line with its `\r` (from a `\r\n` ending) removed.
pub open spec fn strip_cr(l: Seq<char>) -> Seq<char> {
    if l.len() > 0 && l.last() == '\r' {
        l.drop_last()
    } else {
        l
    }
}

/// `str::lines`: split at `\n`, drop a `\r` that precedes the `\n`; a final
/// line ending is optional, so the empty string has no lines.
pub open spec fn lines(s: Seq<char>) -> Seq<Seq<char>>
    decreases s.len(),
{
    if s.len() == 0 {
        seq![]
    } else {
        let k = lead_len(s, not_nl());
        if k >= s.len() {
            seq![s]
        } else {
            seq![strip_cr(s.take(k as int))] + lines(s.skip((k + 1) as int))
        }
    }
}

/// Index of the first `\n` in `v[from..]`, or `v.len()`.
pub fn line_end(v: &Vec<char>, from: usize) -> (r: usize)
    requires
        from <= v.len(),
    ensures
        r == from + lead_len(v@.subrange(from as int, v.len() as int), not_nl()),
        from <= r <= v.len(),
{
    let mut i = from;
    while i < v.len() && v[i] != '\n'
        invariant
            from <= i <= v.len(),
            lead_len(v@.subrange(from as int, v.len() as int), not_nl()) == (i - from) + lead_len(
                v@.subrange(i as int, v.len() as int),
                not_nl(),
            ),
        decreases v.len() - i,
    {
        proof {
            lemma_lead_len_step(v@, i as int, v.len() as int, not_nl());
        }
        i += 1;
    }
    proof {
        if i < v.len() {
            lemma_lead_len_step(v@, i as int, v.len() as int, not_nl());
        }
    }
    i
}

/// The lines of `v`.
pub fn split_lines(v: &Vec<char>) -> (r: Vec<Vec<char>>)
    ensures
        r.deep_view() == lines(v@),
{
    let mut r: Vec<Vec<char>> = Vec::new();
    let mut i: usize = 0;
    assert(v@.skip(0) =~= v@);
    while i < v.len()
        invariant
            i <= v.len(),
            lines(v@) == r.deep_view() + lines(v@.skip(i as int)),
        decreases v.len() - i,
    {
        let ghost rest = v@.skip(i as int);
        let ghost dv = r.deep_view();
        assert(rest =~= v@.subrange(i as int, v.len() as int));
        let j = line_end(v, i);
        proof {
            lemma_lead_len(rest, not_nl());
        }
        if j == v.len() {
            let line = slice_chars(v, i, j);
            assert(line@ =~= rest);
            assert(lines(rest) == seq![rest]);
            r.push(line);
            proof { lemma_deep_view_chars(&line); }
            assert(r.deep_view() =~= dv.push(line@));
            assert(v@.skip(j as int) =~= Seq::<char>::empty());
            assert(lines(v@) =~= r.deep_view() + lines(v@.skip(j as int)));
            i = j;
        } else {
            let mut end = j;
            if end > i && v[end - 1] == '\r' {
                end = end - 1;
            }
            let line = slice_chars(v, i, end);
            assert(line@ =~= strip_cr(rest.take(j - i)));
            assert(rest.skip(j - i + 1) =~= v@.skip(j + 1));
            assert(lines(rest) == seq![strip_cr(rest.take(j - i))] + lines(rest.skip(j - i + 1)));
            r.push(line);
            proof { lemma_deep_view_chars(&line); }
            assert(r.deep_view() =~= dv.push(line@));
            assert(lines(v@) =~= r.deep_view() + lines(v@.skip(j + 1)));
            i = j + 1;
        }
    }
    r
}


// ── Words ──────────────────────────────────────────────────────────────────

/// `str::split_whitespace`: the maximal runs of non-whitespace characters.
pub open spec fn words(s: Seq<char>) -> Seq<Seq<char>>
    decreases s.len(),
{
    let a = lead_len(s, ws());
    if a >= s.len() {
        seq![]
    } else {
        let rest = s.skip(a as int);
        let w = lead_len(rest, not_ws());
        if w == 0 {
            seq![]
        } else {
            proof {
                lemma_lead_len(rest, not_ws());
            }
            seq![rest.take(w as int)] + words(rest.skip(w as int))
        }
    }
}

/// `parts.join(sep)`.
pub open spec fn join_parts(parts: Seq<Seq<char>>, sep: Seq<char>) -> Seq<char>
    decreases parts.len(),
{
    if parts.len() == 0 {
        seq![]
    } else if parts.len() == 1 {
        parts[0]
    } else {
        join_parts(parts.drop_last(), sep) + sep + parts.last()
    }
}

/// `s.split_whitespace().collect::<Vec<_>>().join(" ")`.
pub open spec fn collapse_ws(s: Seq<char>) -> Seq<char> {
    join_parts(words(s), seq![' '])
}

/// The words of `v[from..]`.
pub fn split_words(v: &Vec<char>) -> (r: Vec<Vec<char>>)
    ensures
        r.deep_view() == words(v@),
{
    let mut r: Vec<Vec<char>> = Vec::new();
    let mut i: usize = 0;
    assert(v@.subrange(0, v.len() as int) =~= v@);
    while i < v.len()
        invariant
            i <= v.len(),
            words(v@) == r.deep_view() + words(v@.subrange(i as int, v.len() as int)),
        decreases v.len() - i,
    {
        let ghost s = v@.subrange(i as int, v.len() as int);
        let ghost dv = r.deep_view();
        let a = skip_ws(v, i, v.len());
        proof {
            lemma_lead_len(s, ws());
        }
        if a == v.len() {
            assert(words(s) == Seq::<Seq<char>>::empty());
            assert(v@.subrange(a as int, v.len() as int) =~= Seq::<char>::empty());
            assert(words(v@.subrange(a as int, v.len() as int)) =~= Seq::<Seq<char>>::empty());
            i = a;
        } else {
            let ghost rest = s.skip(a - i);
            assert(rest =~= v@.subrange(a as int, v.len() as int));
            let b = skip_non_ws(v, a, v.len());
            proof {
                lemma_lead_len(rest, not_ws());
                assert(!is_ws(v@[a as int]));
                lemma_lead_len_step(v@, a as int, v.len() as int, not_ws());
            }
            let word = slice_chars(v, a, b);
            assert(word@ =~= rest.take(b - a));
            assert(rest.skip(b - a) =~= v@.subrange(b as int, v.len() as int));
            assert(words(s) == seq![rest.take(b - a)] + words(rest.skip(b - a)));
            r.push(word);
            proof {
                lemma_deep_view_chars(&word);
            }
            assert(r.deep_view() =~= dv.push(word@));
            assert(words(v@) =~= r.deep_view() + words(v@.subrange(b as int, v.len() as int)));
            i = b;
        }
    }
    assert(v@.subrange(i as int, v.len() as int) =~= Seq::<char>::empty());
    assert(r.deep_view() + words(Seq::<char>::empty()) =~= r.deep_view());
    r
}

/// `parts.join(sep)` on character buffers.
pub fn join_chars(parts: &Vec<Vec<char>>, sep: &Vec<char>) -> (r: Vec<char>)
    ensures
        r@ == join_parts(parts.deep_view(), sep@),
{
    let mut r: Vec<char> = Vec::new();
    let mut i: usize = 0;
    while i < parts.len()
        invariant
            i <= parts.len(),
            r@ == join_parts(parts.deep_view().take(i as int), sep@),
        decreases parts.len() - i,
    {
        let ghost pre = parts.deep_view().take(i as int);
        proof {
            lemma_deep_view_chars(&parts[i as int]);
        }
        if i > 0 {
            push_all(&mut r, sep);
        }
        push_all(&mut r, &parts[i]);
        assert(parts.deep_view().take(i + 1).drop_last() =~= pre);
        assert(parts.deep_view().take(i + 1).last() == parts[i as int]@);
        if i == 0 {
            assert(join_parts(parts.deep_view().take(1), sep@) == parts.deep_view().take(1)[0]);
            assert(r@ =~= join_parts(parts.deep_view().take(1), sep@));
        }
        i += 1;
    }
    assert(parts.deep_view().take(parts.len() as int) =~= parts.deep_view());
    r
}

/// `s.split_whitespace().collect::<Vec<_>>().join(" ")` on a character buffer.
pub fn collapse_whitespace(v: &Vec<char>) -> (r: Vec<char>)
    ensures
        r@ == collapse_ws(v@),
{
    let ws_parts = split_words(v);
    let sep = vec![' '];
    assert(sep@ =~= seq![' ']);
    join_chars(&ws_parts, &sep)
}

// ── Numbers ────────────────────────────────────────────────────────────────

pub open spec fn digit_char(d: nat) -> char {
    if d == 0 {
        '0'
    } else if d == 1 {
        '1'
    } else if d == 2 {
        '2'
    } else if d == 3 {
        '3'
    } else if d == 4 {
        '4'
    } else if d == 5 {
        '5'
    } else if d == 6 {
        '6'
    } else if d == 7 {
        '7'
    } else if d == 8 {
        '8'
    } else {
        '9'
    }
}

/// The decimal representation of `n` (`Display` for unsigned integers).
pub open spec fn decimal(n: nat) -> Seq<char>
    decreases n,
{
    if n < 10 {
        seq![digit_char(n)]
    } else {
        decimal(n / 10).push(digit_char(n % 10))
    }
}

fn digit(d: u64) -> (c: char)
    requires
        d < 10,
    ensures
        c == digit_char(d as nat),
{
    if d == 0 {
        '0'
    } else if d == 1 {
        '1'
    } else if d == 2 {
        '2'
    } else if d == 3 {
        '3'
    } else if d == 4 {
        '4'
    } else if d == 5 {
        '5'
    } else if d == 6 {
        '6'
    } else if d == 7 {
        '7'
    } else if d == 8 {
        '8'
    } else {
        '9'
    }
}

/// Appends the decimal representation of `n`.
pub fn push_decimal(out: &mut Vec<char>, n: u64)
    ensures
        final(out)@ == old(out)@ + decimal(n as nat),
    decreases n,
{
    if n < 10 {
        out.push(digit(n));
        assert(decimal(n as nat) == seq![digit_char(n as nat)]);
    } else {
        let ghost start = out@;
        push_decimal(out, n / 10);
        out.push(digit(n % 10));
        assert(out@ =~= start + decimal(n as nat));
    }
}

// ── Replacement ────────────────────────────────────────────────────────────

/// `str::replace` for a non-empty pattern: occurrences are replaced left to
/// right, without overlap.
pub open spec fn replace(s: Seq<char>, p: Seq<char>, r: Seq<char>) -> Seq<char>
    decreases s.len(),
{
    if p.len() == 0 || s.len() == 0 {
        s
    } else if starts_with(s, p) {
        r + replace(s.skip(p.len() as int), p, r)
    } else {
        seq![s[0]] + replace(s.drop_first(), p, r)
    }
}

/// `s.replace(p, r)` on character buffers.
pub fn replace_chars(s: &Vec<char>, p: &Vec<char>, r: &Vec<char>) -> (out: Vec<char>)
    requires
        p.len() > 0,
    ensures
        out@ == replace(s@, p@, r@),
{
    let mut out: Vec<char> = Vec::new();
    let mut i: usize = 0;
    assert(s@.skip(0) =~= s@);
    while i < s.len()
        invariant
            i <= s.len(),
            p.len() > 0,
            replace(s@, p@, r@) == out@ + replace(s@.skip(i as int), p@, r@),
        decreases s.len() - i,
    {
        let ghost rest = s@.skip(i as int);
        if matches_at(s, i, p) {
            assert(rest.take(p.len() as int) =~= s@.subrange(i as int, i + p.len()));
            assert(starts_with(rest, p@));
            assert(rest.skip(p.len() as int) =~= s@.skip(i + p.len()));
            push_all(&mut out, r);
            assert(replace(s@, p@, r@) =~= out@ + replace(s@.skip(i + p.len()), p@, r@));
            i = i + p.len();
        } else {
            assert(!starts_with(rest, p@)) by {
                if starts_with(rest, p@) {
                    assert(s@.subrange(i as int, i + p.len()) =~= rest.take(p.len() as int));
                }
            }
            assert(rest.drop_first() =~= s@.skip(i + 1));
            out.push(s[i]);
            assert(replace(s@, p@, r@) =~= out@ + replace(s@.skip(i + 1), p@, r@));
            i = i + 1;
        }
    }
    assert(s@.skip(i as int) =~= Seq::<char>::empty());
    assert(out@ + replace(Seq::<char>::empty(), p@, r@) =~= out@);
    out
}

// ── Case mapping ───────────────────────────────────────────────────────────

/// What `str::to_lowercase` returns for a string (Unicode lowercase mapping).
pub uninterp spec fn lowercase(s: Seq<char>) -> Seq<char>;

/// Calls `str::to_lowercase`, which maps each character to its Unicode
/// lowercase form.  The contract names the result and says nothing more.
#[verifier::external_body]
pub(crate) fn to_lowercase(s: &str) -> (r: String)
    ensures
        r@ == lowercase(s@),
{
    s.to_lowercase()
}

/// What `Debug` writes for a string slice (`format!("{:?}", s)`): the text
/// quoted, with quotes, backslashes and non-printable characters escaped.
pub uninterp spec fn debug_quoted(s: Seq<char>) -> Seq<char>;

/// Calls `<str as Debug>::fmt` through `format!`.  The contract names the
/// result and says nothing more of it.
#[verifier::external_body]
pub(crate) fn debug_str(s: &str) -> (r: String)
    ensures
        r@ == debug_quoted(s@),
{
    format!("{s:?}")
}

/// The lowercase form of a character buffer.
pub fn lowercase_chars(v: &Vec<char>) -> (r: Vec<char>)
    ensures
        r@ == lowercase(v@),
{
    let s = string_of(v);
    let l = to_lowercase(s.as_str());
    chars_of(l.as_str())
}


// ── Literal helpers ────────────────────────────────────────────────────────

/// Equality of two character buffers.
pub fn eq_chars(a: &Vec<char>, b: &Vec<char>) -> (r: bool)
    ensures
        r == (a@ == b@),
{
    if a.len() != b.len() {
        return false;
    }
    let mut i: usize = 0;
    while i < a.len()
        invariant
            a.len() == b.len(),
            i <= a.len(),
            forall|k: int| 0 <= k < i ==> a@[k] == b@[k],
        decreases a.len() - i,
    {
        if a[i] != b[i] {
            return false;
        }
        i += 1;
    }
    assert(a@ =~= b@);
    true
}

/// Whether `v` equals the string `s`.
pub fn eq_str(v: &Vec<char>, s: &str) -> (r: bool)
    ensures
        r == (v@ == s@),
{
    let sv = chars_of(s);
    eq_chars(v, &sv)
}

/// `v.starts_with(p)`.
pub fn starts_with_str(v: &Vec<char>, p: &str) -> (r: bool)
    ensures
        r == starts_with(v@, p@),
{
    let pv = chars_of(p);
    matches_at(v, 0, &pv)
}

/// `v.ends_with(p)`.
pub fn ends_with_str(v: &Vec<char>, p: &str) -> (r: bool)
    ensures
        r == ends_with(v@, p@),
{
    let pv = chars_of(p);
    if pv.len() > v.len() {
        return false;
    }
    matches_at(v, v.len() - pv.len(), &pv)
}

/// `v.contains(p)`.
pub fn contains_str(v: &Vec<char>, p: &str) -> (r: bool)
    ensures
        r == contains(v@, p@),
{
    let pv = chars_of(p);
    find_chars(v, &pv, 0).is_some()
}

/// `v.trim_start()`.
pub fn trim_start_chars(v: &Vec<char>) -> (r: Vec<char>)
    ensures
        r@ == trim_start(v@),
{
    let a = skip_ws(v, 0, v.len());
    assert(v@.subrange(0, v.len() as int) =~= v@);
    slice_chars(v, a, v.len())
}

/// `v.trim()`.
pub fn trim_chars(v: &Vec<char>) -> (r: Vec<char>)
    ensures
        r@ == trim(v@),
{
    let t = trim_start_chars(v);
    trim_end_chars(&t)
}

/// `v.trim_end()`.
pub fn trim_end_chars(v: &Vec<char>) -> (r: Vec<char>)
    ensures
        r@ == trim_end(v@),
{
    let b = trim_ws_end(v, 0, v.len());
    assert(v@.subrange(0, v.len() as int) =~= v@);
    slice_chars(v, 0, b)
}


// ── Ordering ───────────────────────────────────────────────────────────────

/// Lexicographic order by code point (the order of `String`'s `Ord`, since
/// UTF-8 preserves code-point order).
pub open spec fn seq_lt(a: Seq<char>, b: Seq<char>) -> bool
    decreases a.len(),
{
    if a.len() == 0 {
        b.len() > 0
    } else if b.len() == 0 {
        false
    } else if a[0] < b[0] {
        true
    } else if a[0] == b[0] {
        seq_lt(a.drop_first(), b.drop_first())
    } else {
        false
    }
}

pub proof fn lemma_seq_lt_irreflexive(a: Seq<char>)
    ensures
        !seq_lt(a, a),
    decreases a.len(),
{
    if a.len() > 0 {
        lemma_seq_lt_irreflexive(a.drop_first());
    }
}

pub proof fn lemma_seq_lt_transitive(a: Seq<char>, b: Seq<char>, c: Seq<char>)
    requires
        seq_lt(a, b),
        seq_lt(b, c),
    ensures
        seq_lt(a, c),
    decreases a.len(),
{
    if a.len() > 0 && b.len() > 0 && c.len() > 0 && a[0] == b[0] && b[0] == c[0] {
        lemma_seq_lt_transitive(a.drop_first(), b.drop_first(), c.drop_first());
    }
}

pub proof fn lemma_seq_lt_total(a: Seq<char>, b: Seq<char>)
    ensures
        a == b || seq_lt(a, b) || seq_lt(b, a),
    decreases a.len(),
{
    if a.len() > 0 && b.len() > 0 && a[0] == b[0] {
        lemma_seq_lt_total(a.drop_first(), b.drop_first());
        if a.drop_first() == b.drop_first() {
            assert(a =~= seq![a[0]] + a.drop_first());
            assert(b =~= seq![b[0]] + b.drop_first());
        }
    } else if a.len() == 0 && b.len() == 0 {
        assert(a =~= b);
    }
}

/// `a < b` in lexicographic order.
pub fn chars_lt(a: &Vec<char>, b: &Vec<char>) -> (r: bool)
    ensures
        r == seq_lt(a@, b@),
{
    let mut i: usize = 0;
    assert(a@.skip(0) =~= a@);
    assert(b@.skip(0) =~= b@);
    while i < a.len() && i < b.len() && a[i] == b[i]
        invariant
            i <= a.len(),
            i <= b.len(),
            seq_lt(a@, b@) == seq_lt(a@.skip(i as int), b@.skip(i as int)),
        decreases a.len() - i,
    {
        assert(a@.skip(i as int).drop_first() =~= a@.skip(i + 1));
        assert(b@.skip(i as int).drop_first() =~= b@.skip(i + 1));
        i += 1;
    }
    if i == a.len() {
        i < b.len()
    } else if i == b.len() {
        false
    } else {
        a[i] < b[i]
    }
}


// ── UTF-8 lengths ──────────────────────────────────────────────────────────

/// Number of bytes of `c` in UTF-8 (`char::len_utf8`).
pub open spec fn char_width(c: char) -> nat {
    vstd::utf8::encode_scalar(c as u32).len()
}

/// Number of bytes of `s` in UTF-8 (`str::len`).
pub open spec fn byte_len(s: Seq<char>) -> nat {
    vstd::utf8::encode_utf8(s).len()
}

/// How many leading characters of `s` fit in `budget` bytes: the prefix
/// that `&s[..s.floor_char_boundary(budget)]` keeps.
pub open spec fn fit_chars(s: Seq<char>, budget: int) -> nat
    decreases s.len(),
{
    if s.len() == 0 || char_width(s[0]) > budget {
        0
    } else {
        1 + fit_chars(s.drop_first(), budget - char_width(s[0]))
    }
}

pub proof fn lemma_byte_len_concat(a: Seq<char>, b: Seq<char>)
    ensures
        byte_len(a + b) == byte_len(a) + byte_len(b),
    decreases a.len(),
{
    if a.len() == 0 {
        assert(a + b =~= b);
    } else {
        assert((a + b).drop_first() =~= a.drop_first() + b);
        assert((a + b)[0] == a[0]);
        lemma_byte_len_concat(a.drop_first(), b);
    }
}

pub proof fn lemma_byte_len_single(c: char)
    ensures
        byte_len(seq![c]) == char_width(c),
{
    assert(seq![c].drop_first() =~= Seq::<char>::empty());
    assert(vstd::utf8::encode_utf8(Seq::<char>::empty()) == Seq::<u8>::empty());
    let e = vstd::utf8::encode_scalar(c as u32);
    assert(vstd::utf8::encode_utf8(seq![c]) == e + vstd::utf8::encode_utf8(seq![c].drop_first()));
    assert(e + Seq::<u8>::empty() =~= e);
}

/// `c.len_utf8()`.
pub fn utf8_width(c: char) -> (w: usize)
    ensures
        w == char_width(c),
        1 <= w <= 4,
{
    proof {
        vstd::utf8::char_is_scalar(c);
    }
    let u = c as u32;
    if u <= 0x7F {
        1
    } else if u <= 0x7FF {
        2
    } else if u <= 0xFFFF {
        3
    } else {
        4
    }
}

/// The UTF-8 length of `v`.
pub fn byte_len_chars(v: &Vec<char>) -> (r: u128)
    ensures
        r == byte_len(v@),
{
    let mut r: u128 = 0;
    let mut i: usize = 0;
    assert(v@.take(0) =~= Seq::<char>::empty());
    while i < v.len()
        invariant
            i <= v.len(),
            r == byte_len(v@.take(i as int)),
            r <= 4 * i,
        decreases v.len() - i,
    {
        proof {
            assert(v@.take(i + 1) =~= v@.take(i as int) + seq![v@[i as int]]);
            lemma_byte_len_concat(v@.take(i as int), seq![v@[i as int]]);
            lemma_byte_len_single(v@[i as int]);
        }
        r = r + utf8_width(v[i]) as u128;
        i += 1;
    }
    assert(v@.take(v.len() as int) =~= v@);
    r
}

/// The number of leading characters of `v` that fit in `max` bytes, and
/// their UTF-8 length.
pub fn fit_prefix(v: &Vec<char>, max: usize) -> (r: (usize, usize))
    ensures
        r.0 == fit_chars(v@, max as int),
        r.1 == byte_len(v@.take(r.0 as int)),
        r.0 <= v.len(),
{
    let mut i: usize = 0;
    let mut bytes: usize = 0;
    assert(v@.skip(0) =~= v@);
    assert(v@.take(0) =~= Seq::<char>::empty());
    loop
        invariant
            i <= v.len(),
            bytes <= max,
            bytes == byte_len(v@.take(i as int)),
            fit_chars(v@, max as int) == i + fit_chars(v@.skip(i as int), max - bytes),
        decreases v.len() - i,
    {
        if i >= v.len() {
            return (i, bytes);
        }
        let w = utf8_width(v[i]);
        assert(v@.skip(i as int)[0] == v@[i as int]);
        if w > max - bytes {
            return (i, bytes);
        }
        proof {
            assert(v@.skip(i as int).drop_first() =~= v@.skip(i + 1));
            assert(v@.take(i + 1) =~= v@.take(i as int) + seq![v@[i as int]]);
            lemma_byte_len_concat(v@.take(i as int), seq![v@[i as int]]);
            lemma_byte_len_single(v@[i as int]);
        }
        bytes = bytes + w;
        i += 1;
    }
}

/// Appends the decimal representation of `n`.
pub fn push_decimal_u128(out: &mut Vec<char>, n: u128)
    ensures
        final(out)@ == old(out)@ + decimal(n as nat),
    decreases n,
{
    if n < 10 {
        out.push(digit(n as u64));
        assert(decimal(n as nat) == seq![digit_char(n as nat)]);
    } else {
        let ghost start = out@;
        push_decimal_u128(out, n / 10);
        out.push(digit((n % 10) as u64));
        assert(out@ =~= start + decimal(n as nat));
    }
}

} // verus!
