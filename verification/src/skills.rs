//! Slash-command skills: prompt templates loaded from `.md` files.
use crate::text::{
    chars_of, eq_chars, find, find_chars, lead_len, lemma_deep_view_chars, lemma_find_from,
    lemma_lead_len_step, lemma_trail_len_step, lines, occurs_at, push_str, replace, replace_chars,
    slice_chars, split_lines, starts_with, starts_with_str, string_of, trail_len, trim, trim_chars,
    trim_start, trim_start_chars, join_parts,
};
use vstd::prelude::*;

verus! {

/// A skill loaded from a `.md` file.
pub struct Skill {
    /// Slash command name, e.g. `"/review"`.
    pub name: String,
    /// One-line description used in autocomplete.
    pub description: String,
    /// Prompt template. `{dir}` and `{args}` are substituted at invocation time.
    pub template: String,
}

/// `s` with every `{dir}` replaced by `dir`, then every `{args}` by `args`.
pub open spec fn spec_expand(template: Seq<char>, dir: Seq<char>, args: Seq<char>) -> Seq<char> {
    replace(replace(template, "{dir}"@, dir), "{args}"@, args)
}

fn copy_string(s: &String) -> (r: String)
    ensures
        r@ == s@,
{
    string_of(&chars_of(s.as_str()))
}

impl Skill {
    pub fn new(name: &str, description: &str, template: &str) -> (s: Self)
        ensures
            s.name@ == name@,
            s.description@ == description@,
            s.template@ == template@,
    {
        Skill {
            name: string_of(&chars_of(name)),
            description: string_of(&chars_of(description)),
            template: string_of(&chars_of(template)),
        }
    }

    /// A copy of the skill.
    pub fn duplicate(&self) -> (s: Self)
        ensures
            s.name@ == self.name@,
            s.description@ == self.description@,
            s.template@ == self.template@,
    {
        Skill {
            name: copy_string(&self.name),
            description: copy_string(&self.description),
            template: copy_string(&self.template),
        }
    }

    /// The prompt for this skill invoked in `dir` with `args`.
    pub fn expand(&self, dir: &str, args: &str) -> (r: String)
        ensures
            r@ == spec_expand(self.template@, dir@, args@),
    {
        let t = chars_of(self.template.as_str());
        let dir_pat = chars_of("{dir}");
        let args_pat = chars_of("{args}");
        proof {
            reveal_strlit("{dir}");
            reveal_strlit("{args}");
        }
        let once = replace_chars(&t, &dir_pat, &chars_of(dir));
        string_of(&replace_chars(&once, &args_pat, &chars_of(args)))
    }
}

// ── Commands ───────────────────────────────────────────────────────────────

/// The input's first whitespace character, if any, is a single byte in
/// UTF-8; `split_command` slices just past it.
pub open spec fn splits_on_ascii(input: Seq<char>) -> bool {
    let k = lead_len(input, crate::text::not_ws());
    k < input.len() ==> (input[k as int] as u32) < 128
}

/// `(command, args)`: the text before the first whitespace character, and
/// the trimmed text after it.
pub open spec fn spec_split_command(input: Seq<char>) -> (Seq<char>, Seq<char>) {
    let k = lead_len(input, crate::text::not_ws());
    if k >= input.len() {
        (input, seq![])
    } else {
        (input.take(k as int), trim(input.skip((k + 1) as int)))
    }
}

/// Split `input` at its first whitespace character into the command and
/// its (trimmed) arguments.
pub fn split_command(input: &str) -> (r: (String, String))
    requires
        splits_on_ascii(input@),
    ensures
        (r.0@, r.1@) == spec_split_command(input@),
{
    let v = chars_of(input);
    let k = crate::text::skip_non_ws(&v, 0, v.len());
    assert(v@.subrange(0, v.len() as int) =~= v@);
    if k >= v.len() {
        (string_of(&v), String::new())
    } else {
        let cmd = slice_chars(&v, 0, k);
        let rest = slice_chars(&v, k + 1, v.len());
        assert(rest@ =~= v@.skip(k + 1));
        (string_of(&cmd), string_of(&trim_chars(&rest)))
    }
}

/// The first skill named `name`, if any.
pub open spec fn first_named(skills: Seq<Skill>, name: Seq<char>, i: int) -> Option<int>
    decreases skills.len() - i,
{
    if i < 0 || i >= skills.len() {
        None
    } else if skills[i].name@ == name {
        Some(i)
    } else {
        first_named(skills, name, i + 1)
    }
}

/// The expanded prompt when `input` starts with a known skill command.
pub open spec fn spec_resolve(skills: Seq<Skill>, input: Seq<char>, dir: Seq<char>) -> Option<
    Seq<char>,
> {
    let (cmd, args) = spec_split_command(input);
    match first_named(skills, cmd, 0) {
        Some(i) => Some(spec_expand(skills[i].template@, dir, args)),
        None => None,
    }
}

/// If `input` starts with a known skill command, expand and return the
/// prompt.  Returns `None` for regular messages or built-in commands
/// (`/model`).
pub fn resolve(skills: &Vec<Skill>, input: &str, dir: &str) -> (r: Option<String>)
    requires
        splits_on_ascii(input@),
    ensures
        r matches Some(p) ==> spec_resolve(skills@, input@, dir@) == Some(p@),
        r is None ==> spec_resolve(skills@, input@, dir@) is None,
{
    let (cmd, args) = split_command(input);
    let cv = chars_of(cmd.as_str());
    let mut i: usize = 0;
    while i < skills.len()
        invariant
            i <= skills.len(),
            cv@ == cmd@,
            (cmd@, args@) == spec_split_command(input@),
            first_named(skills@, cmd@, 0) == first_named(skills@, cmd@, i as int),
        decreases skills.len() - i,
    {
        let nv = chars_of(skills[i].name.as_str());
        if eq_chars(&nv, &cv) {
            return Some(skills[i].expand(dir, args.as_str()));
        }
        i += 1;
    }
    None
}


// ── Skill files ────────────────────────────────────────────────────────────

pub open spec fn is_char(c: char) -> spec_fn(char) -> bool {
    |x: char| x == c
}

/// `s.trim_start_matches(c)`.
pub open spec fn strip_leading(s: Seq<char>, c: char) -> Seq<char> {
    s.skip(lead_len(s, is_char(c)) as int)
}

/// `s.trim_matches(c)`.
pub open spec fn strip_both(s: Seq<char>, c: char) -> Seq<char> {
    let t = strip_leading(s, c);
    t.take(t.len() - trail_len(t, is_char(c)))
}

/// The value of a `description = ...` line, if the line is one.
pub open spec fn description_value(line: Seq<char>) -> Option<Seq<char>> {
    let t = trim(line);
    if !starts_with(t, "description"@) {
        None
    } else {
        let rest = trim(t.skip("description"@.len() as int));
        if !starts_with(rest, "="@) {
            None
        } else {
            Some(strip_both(strip_both(trim(rest.skip(1)), '"'), '\''))
        }
    }
}

/// The value of the first `description = ...` line.
pub open spec fn description_in(ls: Seq<Seq<char>>) -> Option<Seq<char>>
    decreases ls.len(),
{
    if ls.len() == 0 {
        None
    } else if description_value(ls[0]) is Some {
        description_value(ls[0])
    } else {
        description_in(ls.drop_first())
    }
}

pub open spec fn spec_parse_description_from_toml(fm: Seq<char>) -> Option<Seq<char>> {
    description_in(lines(fm))
}

/// `(description, template)` of a skill file: optional front-matter between
/// `---` fences may give a `description`; the stem is the fallback.  A file
/// without a closing fence is all template.
pub open spec fn spec_parse_skill_file(content: Seq<char>, stem: Seq<char>) -> (
    Seq<char>,
    Seq<char>,
) {
    let c = trim_start(content);
    if !starts_with(c, "---"@) {
        (stem, c)
    } else {
        let after_open = strip_leading(strip_leading(c, '-'), '\n');
        match find(after_open, "\n---"@) {
            None => (stem, c),
            Some(pos) => {
                let fm = after_open.take(pos);
                let body = strip_leading(after_open.skip(pos + 4), '\n');
                let description = match spec_parse_description_from_toml(fm) {
                    Some(d) => d,
                    None => stem,
                };
                (description, body)
            },
        }
    }
}

fn strip_leading_chars(v: &Vec<char>, c: char) -> (r: Vec<char>)
    ensures
        r@ == strip_leading(v@, c),
{
    let mut i: usize = 0;
    assert(v@.subrange(0, v.len() as int) =~= v@);
    while i < v.len() && v[i] == c
        invariant
            i <= v.len(),
            lead_len(v@, is_char(c)) == i + lead_len(
                v@.subrange(i as int, v.len() as int),
                is_char(c),
            ),
        decreases v.len() - i,
    {
        proof {
            lemma_lead_len_step(v@, i as int, v.len() as int, is_char(c));
        }
        i += 1;
    }
    proof {
        if i < v.len() {
            lemma_lead_len_step(v@, i as int, v.len() as int, is_char(c));
        }
    }
    slice_chars(v, i, v.len())
}

fn strip_both_chars(v: &Vec<char>, c: char) -> (r: Vec<char>)
    ensures
        r@ == strip_both(v@, c),
{
    let t = strip_leading_chars(v, c);
    let mut j = t.len();
    assert(t@.subrange(0, t.len() as int) =~= t@);
    while j > 0 && t[j - 1] == c
        invariant
            j <= t.len(),
            trail_len(t@, is_char(c)) == (t.len() - j) + trail_len(
                t@.subrange(0, j as int),
                is_char(c),
            ),
        decreases j,
    {
        proof {
            lemma_trail_len_step(t@, 0, j as int, is_char(c));
        }
        j -= 1;
    }
    proof {
        if j > 0 {
            lemma_trail_len_step(t@, 0, j as int, is_char(c));
        }
    }
    slice_chars(&t, 0, j)
}

fn description_value_chars(line: &Vec<char>) -> (r: Option<Vec<char>>)
    ensures
        r matches Some(v) ==> description_value(line@) == Some(v@),
        r is None ==> description_value(line@) is None,
{
    let t = trim_chars(line);
    if !starts_with_str(&t, "description") {
        return None;
    }
    let key = chars_of("description");
    assert(occurs_at(t@, key@, 0));
    let after_key = slice_chars(&t, key.len(), t.len());
    assert(after_key@ =~= t@.skip("description"@.len() as int));
    let rest = trim_chars(&after_key);
    if !starts_with_str(&rest, "=") {
        return None;
    }
    proof {
        reveal_strlit("=");
    }
    let value = slice_chars(&rest, 1, rest.len());
    assert(value@ =~= rest@.skip(1));
    let v1 = trim_chars(&value);
    let v2 = strip_both_chars(&v1, '"');
    Some(strip_both_chars(&v2, '\''))
}

/// The `description` value in TOML front-matter, if present.
pub fn parse_description_from_toml(fm: &str) -> (r: Option<String>)
    ensures
        r matches Some(d) ==> spec_parse_description_from_toml(fm@) == Some(d@),
        r is None ==> spec_parse_description_from_toml(fm@) is None,
{
    let ls = split_lines(&chars_of(fm));
    let ghost all = ls.deep_view();
    let mut i: usize = 0;
    assert(all.skip(0) =~= all);
    while i < ls.len()
        invariant
            i <= ls.len(),
            all == ls.deep_view(),
            all == lines(fm@),
            description_in(all) == description_in(all.skip(i as int)),
        decreases ls.len() - i,
    {
        proof {
            lemma_deep_view_chars(&ls[i as int]);
        }
        assert(all.skip(i as int)[0] == ls[i as int]@);
        assert(all.skip(i as int).drop_first() =~= all.skip(i + 1));
        match description_value_chars(&ls[i]) {
            Some(v) => {
                return Some(string_of(&v));
            },
            None => {},
        }
        i += 1;
    }
    assert(all.skip(i as int) =~= Seq::<Seq<char>>::empty());
    None
}

/// Parse optional TOML front-matter (`---` … `---`) and return
/// `(description, template_body)`.
pub fn parse_skill_file(content: &str, stem: &str) -> (r: (String, String))
    ensures
        (r.0@, r.1@) == spec_parse_skill_file(content@, stem@),
{
    let c = trim_start_chars(&chars_of(content));
    if !starts_with_str(&c, "---") {
        return (string_of(&chars_of(stem)), string_of(&c));
    }
    let after_dashes = strip_leading_chars(&c, '-');
    let after_open = strip_leading_chars(&after_dashes, '\n');
    let fence = chars_of("\n---");
    proof {
        reveal_strlit("\n---");
        lemma_find_from(after_open@, fence@, 0);
    }
    match find_chars(&after_open, &fence, 0) {
        None => (string_of(&chars_of(stem)), string_of(&c)),
        Some(pos) => {
            assert(occurs_at(after_open@, fence@, pos as int));
            let al = after_open.len();
            assert(pos + fence@.len() <= al);
            assert(fence@.len() == 4);
            let fm = slice_chars(&after_open, 0, pos);
            let after_fence = slice_chars(&after_open, pos + 4, al);
            assert(after_fence@ =~= after_open@.skip(pos + 4));
            let body = strip_leading_chars(&after_fence, '\n');
            let fm_s = string_of(&fm);
            assert(fm@ =~= after_open@.take(pos as int));
            let description = match parse_description_from_toml(fm_s.as_str()) {
                Some(d) => d,
                None => string_of(&chars_of(stem)),
            };
            (description, string_of(&body))
        },
    }
}


// ── Loading ────────────────────────────────────────────────────────────────

/// A file found in a skills directory: its name and its text.
pub struct SkillFile {
    pub file_name: String,
    pub content: String,
}

pub open spec fn not_dot() -> spec_fn(char) -> bool {
    |c: char| c != '.'
}

/// The stem of a file name whose extension is `md` (as `Path::extension`
/// and `Path::file_stem` split it: at the last `.`, unless that dot starts
/// the name).
pub open spec fn md_stem(name: Seq<char>) -> Option<Seq<char>> {
    let k = trail_len(name, not_dot());
    if k >= name.len() {
        None
    } else {
        let dot = name.len() - k - 1;
        let before = name.take(dot);
        let after = name.skip(dot + 1);
        if before.len() > 0 && after == "md"@ {
            Some(before)
        } else {
            None
        }
    }
}

/// `(name, description, template)`.
pub type SkillModel = (Seq<char>, Seq<char>, Seq<char>);

pub open spec fn skill_view(s: Skill) -> SkillModel {
    (s.name@, s.description@, s.template@)
}

/// The skill a file contributes, if it is a `.md` file.
pub open spec fn file_skill(f: SkillFile) -> Option<SkillModel> {
    match md_stem(f.file_name@) {
        None => None,
        Some(stem) => {
            let (d, t) = spec_parse_skill_file(f.content@, stem);
            Some(("/"@ + stem, d, t))
        },
    }
}

/// The skill named `name` contributed by the last file that has one.
pub open spec fn latest(files: Seq<SkillFile>, name: Seq<char>) -> Option<SkillModel>
    decreases files.len(),
{
    if files.len() == 0 {
        None
    } else if file_skill(files.last()) matches Some(m) && m.0 == name {
        file_skill(files.last())
    } else {
        latest(files.drop_last(), name)
    }
}

/// `skills` holds, in strictly increasing name order, exactly one skill for
/// each name that `files` contribute: the one from the last file with it.
pub open spec fn loaded_from(skills: Seq<Skill>, files: Seq<SkillFile>) -> bool {
    &&& forall|i: int, j: int|
        0 <= i < j < skills.len() ==> crate::text::seq_lt(skills[i].name@, skills[j].name@)
    &&& forall|i: int| 0 <= i < skills.len() ==> latest(files, #[trigger] skills[i].name@) == Some(
        skill_view(skills[i]),
    )
    &&& forall|name: Seq<char>|
        #![trigger latest(files, name)]
        latest(files, name) is Some ==> exists|i: int|
            0 <= i < skills.len() && skills[i].name@ == name
}

/// The stem of `name` when its extension is `md`.
pub fn md_file_stem(name: &str) -> (r: Option<String>)
    ensures
        r matches Some(s) ==> md_stem(name@) == Some(s@),
        r is None ==> md_stem(name@) is None,
{
    let v = chars_of(name);
    let n = v.len();
    let mut j = n;
    assert(v@.subrange(0, n as int) =~= v@);
    while j > 0 && v[j - 1] != '.'
        invariant
            j <= n == v.len(),
            trail_len(v@, not_dot()) == (n - j) + trail_len(v@.subrange(0, j as int), not_dot()),
        decreases j,
    {
        proof {
            lemma_trail_len_step(v@, 0, j as int, not_dot());
        }
        j -= 1;
    }
    proof {
        if j > 0 {
            lemma_trail_len_step(v@, 0, j as int, not_dot());
        }
    }
    if j == 0 {
        return None;
    }
    let before = slice_chars(&v, 0, j - 1);
    let after = slice_chars(&v, j, n);
    assert(after@ =~= v@.skip(j as int));
    if before.len() > 0 && crate::text::eq_str(&after, "md") {
        Some(string_of(&before))
    } else {
        None
    }
}

/// The skill a file contributes, if it is a `.md` file: named `/<stem>`,
/// with the description and template from `parse_skill_file`.
pub fn skill_from_file(f: &SkillFile) -> (r: Option<Skill>)
    ensures
        r matches Some(s) ==> file_skill(*f) == Some(skill_view(s)),
        r is None ==> file_skill(*f) is None,
{
    match md_file_stem(f.file_name.as_str()) {
        None => None,
        Some(stem) => {
            let (description, template) = parse_skill_file(f.content.as_str(), stem.as_str());
            let mut name = chars_of("/");
            push_str(&mut name, stem.as_str());
            Some(Skill { name: string_of(&name), description, template })
        },
    }
}

/// Build the skill list from the files of the skills directories, global
/// directory first.  Later files override earlier ones with the same name,
/// so project-local skills override global ones; the list is sorted by name.
pub fn load(files: &Vec<SkillFile>) -> (r: Vec<Skill>)
    ensures
        loaded_from(r@, files@),
{
    let mut out: Vec<Skill> = Vec::new();
    let mut k: usize = 0;
    while k < files.len()
        invariant
            k <= files.len(),
            loaded_from(out@, files@.take(k as int)),
        decreases files.len() - k,
    {
        let ghost pre = files@.take(k as int);
        let ghost post = files@.take(k + 1);
        assert(post.drop_last() =~= pre);
        assert(post.last() == files@[k as int]);
        match skill_from_file(&files[k]) {
            None => {
                assert forall|name: Seq<char>| latest(post, name) == latest(pre, name) by {}
                assert(loaded_from(out@, post));
            },
            Some(skill) => {
                let ghost m = skill_view(skill);
                let nv = chars_of(skill.name.as_str());
                let mut i: usize = 0;
                while i < out.len() && chars_lt_str(&out[i].name, &nv)
                    invariant
                        i <= out.len(),
                        nv@ == m.0,
                        forall|t: int| 0 <= t < i ==> crate::text::seq_lt(
                            #[trigger] out@[t].name@,
                            m.0,
                        ),
                    decreases out.len() - i,
                {
                    i += 1;
                }
                assert forall|name: Seq<char>|
                    latest(post, name) == (if name == m.0 {
                        Some(m)
                    } else {
                        latest(pre, name)
                    }) by {}
                let ghost old_out = out@;
                if i < out.len() && crate::text::eq_chars(&chars_of(out[i].name.as_str()), &nv) {
                    out.set(i, skill);
                    proof {
                        assert forall|a: int, b: int| 0 <= a < b < out@.len() implies crate::text::seq_lt(
                            out@[a].name@,
                            out@[b].name@,
                        ) by {
                            assert(old_out[a].name@ == out@[a].name@ || a == i);
                            assert(old_out[b].name@ == out@[b].name@ || b == i);
                        }
                        assert forall|t: int| 0 <= t < out@.len() implies latest(
                            post,
                            #[trigger] out@[t].name@,
                        ) == Some(skill_view(out@[t])) by {
                            if t != i {
                                assert(old_out[t] == out@[t]);
                                crate::text::lemma_seq_lt_total(old_out[t].name@, m.0);
                                if crate::text::seq_lt(old_out[t].name@, m.0) {
                                    crate::text::lemma_seq_lt_irreflexive(m.0);
                                }
                                if t < i {
                                    assert(crate::text::seq_lt(old_out[t].name@, old_out[i as int].name@));
                                    crate::text::lemma_seq_lt_irreflexive(m.0);
                                } else {
                                    assert(crate::text::seq_lt(old_out[i as int].name@, old_out[t].name@));
                                    crate::text::lemma_seq_lt_irreflexive(m.0);
                                }
                            }
                        }
                        assert forall|name: Seq<char>|
                            #![trigger latest(post, name)]
                            latest(post, name) is Some implies exists|t: int|
                                0 <= t < out@.len() && out@[t].name@ == name by {
                            if name == m.0 {
                                assert(out@[i as int].name@ == name);
                            } else {
                                assert(latest(pre, name) is Some);
                                let t = choose|t: int| 0 <= t < old_out.len() && old_out[t].name@ == name;
                                assert(out@[t].name@ == name);
                            }
                        }
                    }
                } else {
                    proof {
                        if i < out.len() {
                            crate::text::lemma_seq_lt_total(out@[i as int].name@, m.0);
                        }
                    }
                    out.insert(i, skill);
                    proof {
                        assert(out@ == old_out.insert(i as int, skill));
                        assert forall|a: int, b: int| 0 <= a < b < out@.len() implies crate::text::seq_lt(
                            out@[a].name@,
                            out@[b].name@,
                        ) by {
                            if a < i && b < i {
                                assert(out@[a] == old_out[a] && out@[b] == old_out[b]);
                            } else if a < i && b == i {
                                assert(out@[a] == old_out[a]);
                            } else if a < i {
                                assert(out@[a] == old_out[a] && out@[b] == old_out[b - 1]);
                                assert(crate::text::seq_lt(old_out[a].name@, old_out[b - 1].name@));
                            } else if a == i {
                                assert(out@[b] == old_out[b - 1]);
                                if b - 1 > i {
                                    crate::text::lemma_seq_lt_transitive(m.0, old_out[i as int].name@, old_out[b - 1].name@);
                                }
                            } else {
                                assert(out@[a] == old_out[a - 1] && out@[b] == old_out[b - 1]);
                            }
                        }
                        assert forall|t: int| 0 <= t < out@.len() implies latest(
                            post,
                            #[trigger] out@[t].name@,
                        ) == Some(skill_view(out@[t])) by {
                            if t != i {
                                let o = if t < i { t } else { t - 1 };
                                assert(out@[t] == old_out[o]);
                                if o < i {
                                    crate::text::lemma_seq_lt_irreflexive(m.0);
                                } else {
                                    if o > i {
                                        crate::text::lemma_seq_lt_transitive(m.0, old_out[i as int].name@, old_out[o].name@);
                                    }
                                    crate::text::lemma_seq_lt_irreflexive(m.0);
                                }
                            }
                        }
                        assert forall|name: Seq<char>|
                            #![trigger latest(post, name)]
                            latest(post, name) is Some implies exists|t: int|
                                0 <= t < out@.len() && out@[t].name@ == name by {
                            if name == m.0 {
                                assert(out@[i as int].name@ == name);
                            } else {
                                assert(latest(pre, name) is Some);
                                let t = choose|t: int| 0 <= t < old_out.len() && old_out[t].name@ == name;
                                if t < i {
                                    assert(out@[t].name@ == name);
                                } else {
                                    assert(out@[t + 1].name@ == name);
                                }
                            }
                        }
                    }
                }
            },
        }
        k += 1;
    }
    assert(files@.take(files.len() as int) =~= files@);
    out
}

fn chars_lt_str(a: &String, b: &Vec<char>) -> (r: bool)
    ensures
        r == crate::text::seq_lt(a@, b@),
{
    crate::text::chars_lt(&chars_of(a.as_str()), b)
}


/// Project-local skills override global ones: the skill named `name` loaded
/// from the global files followed by the project files is the project's
/// when the project defines it, and the global one otherwise.
pub proof fn lemma_project_overrides_global(
    global: Seq<SkillFile>,
    project: Seq<SkillFile>,
    name: Seq<char>,
)
    ensures
        latest(global + project, name) == if latest(project, name) is Some {
            latest(project, name)
        } else {
            latest(global, name)
        },
    decreases project.len(),
{
    if project.len() == 0 {
        assert(global + project =~= global);
    } else {
        assert((global + project).drop_last() =~= global + project.drop_last());
        assert((global + project).last() == project.last());
        lemma_project_overrides_global(global, project.drop_last(), name);
    }
}

// ── Expansion laws ─────────────────────────────────────────────────────────

/// `s` holds no `{`.
pub open spec fn no_brace(s: Seq<char>) -> bool {
    forall|k: int| 0 <= k < s.len() ==> s[k] != '{'
}

proof fn lemma_replace_absent(s: Seq<char>, p: Seq<char>, r: Seq<char>)
    requires
        p.len() > 0,
        forall|k: int| 0 <= k < s.len() ==> s[k] != p[0],
    ensures
        replace(s, p, r) == s,
    decreases s.len(),
{
    if s.len() > 0 {
        assert(!starts_with(s, p)) by {
            if starts_with(s, p) {
                assert(s.subrange(0, p.len() as int)[0] == s[0]);
            }
        }
        lemma_replace_absent(s.drop_first(), p, r);
        assert(seq![s[0]] + s.drop_first() =~= s);
    }
}

proof fn lemma_replace_after_plain(x: Seq<char>, y: Seq<char>, p: Seq<char>, r: Seq<char>)
    requires
        p.len() > 0,
        forall|k: int| 0 <= k < x.len() ==> x[k] != p[0],
    ensures
        replace(x + y, p, r) == x + replace(y, p, r),
    decreases x.len(),
{
    if x.len() == 0 {
        assert(x + y =~= y);
        assert(x + replace(y, p, r) =~= replace(y, p, r));
    } else {
        let xy = x + y;
        assert(xy[0] == x[0]);
        assert(!starts_with(xy, p)) by {
            if starts_with(xy, p) {
                assert(xy.subrange(0, p.len() as int)[0] == xy[0]);
            }
        }
        assert(xy.drop_first() =~= x.drop_first() + y);
        lemma_replace_after_plain(x.drop_first(), y, p, r);
        assert(seq![x[0]] + (x.drop_first() + replace(y, p, r)) =~= x + replace(y, p, r));
    }
}

proof fn lemma_replace_at_front(y: Seq<char>, p: Seq<char>, r: Seq<char>)
    requires
        p.len() > 0,
    ensures
        replace(p + y, p, r) == r + replace(y, p, r),
{
    let s = p + y;
    assert(s.subrange(0, p.len() as int) =~= p);
    assert(s.skip(p.len() as int) =~= y);
}

proof fn lemma_join_front(parts: Seq<Seq<char>>, sep: Seq<char>)
    requires
        parts.len() >= 2,
    ensures
        join_parts(parts, sep) == parts[0] + sep + join_parts(parts.drop_first(), sep),
    decreases parts.len(),
{
    if parts.len() == 2 {
        assert(parts.drop_last().len() == 1);
        assert(parts.drop_first().len() == 1);
        assert(parts.drop_first()[0] == parts.last());
        assert(parts.drop_last()[0] == parts[0]);
        assert(join_parts(parts.drop_last(), sep) == parts[0]);
        assert(join_parts(parts.drop_first(), sep) == parts.last());
    } else {
        lemma_join_front(parts.drop_last(), sep);
        assert(parts.drop_last().drop_first() =~= parts.drop_first().drop_last());
        assert(parts.drop_first().last() == parts.last());
        assert(parts.drop_last()[0] == parts[0]);
        let j = join_parts(parts.drop_first().drop_last(), sep);
        assert(parts[0] + sep + j + sep + parts.last() =~= parts[0] + sep + (j + sep
            + parts.last()));
    }
}

proof fn lemma_join_no_brace(parts: Seq<Seq<char>>, sep: Seq<char>)
    requires
        forall|i: int| 0 <= i < parts.len() ==> no_brace(#[trigger] parts[i]),
        no_brace(sep),
    ensures
        no_brace(join_parts(parts, sep)),
    decreases parts.len(),
{
    if parts.len() > 1 {
        lemma_join_no_brace(parts.drop_last(), sep);
        let j = join_parts(parts.drop_last(), sep);
        let l = parts.last();
        assert(no_brace(l));
        assert forall|k: int| 0 <= k < (j + sep + l).len() implies (j + sep + l)[k] != '{' by {
            if k < j.len() {
            } else if k < j.len() + sep.len() {
                assert((j + sep + l)[k] == sep[k - j.len()]);
            } else {
                assert((j + sep + l)[k] == l[k - j.len() - sep.len()]);
            }
        }
    }
}

proof fn lemma_replace_join(parts: Seq<Seq<char>>, p: Seq<char>, r: Seq<char>)
    requires
        p.len() > 0,
        p[0] == '{',
        forall|i: int| 0 <= i < parts.len() ==> no_brace(#[trigger] parts[i]),
    ensures
        replace(join_parts(parts, p), p, r) == join_parts(parts, r),
    decreases parts.len(),
{
    if parts.len() == 0 {
    } else if parts.len() == 1 {
        assert(no_brace(parts[0]));
        lemma_replace_absent(parts[0], p, r);
    } else {
        lemma_join_front(parts, p);
        lemma_join_front(parts, r);
        let rest = parts.drop_first();
        assert forall|i: int| 0 <= i < rest.len() implies no_brace(#[trigger] rest[i]) by {
            assert(rest[i] == parts[i + 1]);
        }
        assert(no_brace(parts[0]));
        assert(parts[0] + p + join_parts(rest, p) =~= parts[0] + (p + join_parts(rest, p)));
        lemma_replace_after_plain(parts[0], p + join_parts(rest, p), p, r);
        lemma_replace_at_front(join_parts(rest, p), p, r);
        lemma_replace_join(rest, p, r);
        assert(parts[0] + (r + join_parts(rest, r)) =~= parts[0] + r + join_parts(rest, r));
    }
}

/// Every `{dir}` is substituted: a template made of text pieces (none
/// holding a `{`) with `{dir}` between them expands to the same pieces with
/// the directory between them, whatever the arguments, when the directory
/// holds no `{`.
pub proof fn lemma_expand_substitutes_every_dir(parts: Seq<Seq<char>>, dir: Seq<char>, args: Seq<char>)
    requires
        forall|i: int| 0 <= i < parts.len() ==> no_brace(#[trigger] parts[i]),
        no_brace(dir),
    ensures
        spec_expand(join_parts(parts, "{dir}"@), dir, args) == join_parts(parts, dir),
{
    reveal_strlit("{dir}");
    reveal_strlit("{args}");
    lemma_replace_join(parts, "{dir}"@, dir);
    lemma_join_no_brace(parts, dir);
    lemma_replace_absent(join_parts(parts, dir), "{args}"@, args);
}

proof fn lemma_replace_join_other(
    parts: Seq<Seq<char>>,
    q: Seq<char>,
    p: Seq<char>,
    r: Seq<char>,
)
    requires
        p.len() >= 2,
        q.len() >= 2,
        p[0] == '{',
        q[0] == '{',
        q[1] != p[1],
        no_brace(q.drop_first()),
        forall|i: int| 0 <= i < parts.len() ==> no_brace(#[trigger] parts[i]),
    ensures
        replace(join_parts(parts, q), p, r) == join_parts(parts, q),
    decreases parts.len(),
{
    if parts.len() == 0 {
    } else if parts.len() == 1 {
        assert(no_brace(parts[0]));
        lemma_replace_absent(parts[0], p, r);
    } else {
        lemma_join_front(parts, q);
        let rest = parts.drop_first();
        assert forall|i: int| 0 <= i < rest.len() implies no_brace(#[trigger] rest[i]) by {
            assert(rest[i] == parts[i + 1]);
        }
        assert(no_brace(parts[0]));
        let jr = join_parts(rest, q);
        assert(parts[0] + q + jr =~= parts[0] + (q + jr));
        lemma_replace_after_plain(parts[0], q + jr, p, r);
        let s2 = q + jr;
        assert(!starts_with(s2, p)) by {
            if starts_with(s2, p) {
                assert(s2.subrange(0, p.len() as int)[1] == s2[1]);
            }
        }
        assert(s2.drop_first() =~= q.drop_first() + jr);
        lemma_replace_after_plain(q.drop_first(), jr, p, r);
        lemma_replace_join_other(rest, q, p, r);
        assert(seq![s2[0]] + (q.drop_first() + jr) =~= s2);
    }
}

/// Every `{args}` is substituted too: a template made of text pieces (none
/// holding a `{`) with `{args}` between them expands to the same pieces
/// with the arguments between them, whatever the directory.
pub proof fn lemma_expand_substitutes_every_args(parts: Seq<Seq<char>>, dir: Seq<char>, args: Seq<char>)
    requires
        forall|i: int| 0 <= i < parts.len() ==> no_brace(#[trigger] parts[i]),
    ensures
        spec_expand(join_parts(parts, "{args}"@), dir, args) == join_parts(parts, args),
{
    reveal_strlit("{dir}");
    reveal_strlit("{args}");
    assert(no_brace("{args}"@.drop_first()));
    lemma_replace_join_other(parts, "{args}"@, "{dir}"@, dir);
    lemma_replace_join(parts, "{args}"@, args);
}
} // verus!
