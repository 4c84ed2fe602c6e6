//! Line-editor assistance for slash commands: completion candidates, an
//! inline hint for the first matching command, and colouring.
use crate::skills::Skill;
use crate::text::{
    byte_len, chars_of, eq_chars, fit_chars, fit_prefix, push_all, push_str, slice_chars,
    starts_with, string_of,
};
use vstd::prelude::*;

verus! {

/// Name of the built-in model command.
pub const MODEL_COMMAND: &'static str = "/model";

/// Description of the built-in model command.
pub const MODEL_COMMAND_DESCRIPTION: &'static str = "switch the active model";

/// Every known command with its description: the built-in `/model` first,
/// then the loaded skills in order.
pub open spec fn spec_commands(skills: Seq<Skill>) -> Seq<(Seq<char>, Seq<char>)> {
    seq![(MODEL_COMMAND@, MODEL_COMMAND_DESCRIPTION@)] + skills.map_values(
        |s: Skill| (s.name@, s.description@),
    )
}

/// A completion candidate: what the menu shows and what replaces the word.
pub struct Pair {
    pub display: String,
    pub replacement: String,
}

/// The candidate for a command: its name, then its description in grey.
pub open spec fn candidate(c: (Seq<char>, Seq<char>)) -> (Seq<char>, Seq<char>) {
    (c.0 + "  \x1b[90m"@ + c.1 + "\x1b[0m"@, c.0)
}

/// The candidates among `cmds` whose names start with `word`, in order.
pub open spec fn candidates(cmds: Seq<(Seq<char>, Seq<char>)>, word: Seq<char>) -> Seq<
    (Seq<char>, Seq<char>),
>
    decreases cmds.len(),
{
    if cmds.len() == 0 {
        seq![]
    } else {
        candidates(cmds.drop_last(), word) + if starts_with(cmds.last().0, word) {
            seq![candidate(cmds.last())]
        } else {
            seq![]
        }
    }
}

pub open spec fn pairs_view(v: Seq<Pair>) -> Seq<(Seq<char>, Seq<char>)> {
    v.map_values(|p: Pair| (p.display@, p.replacement@))
}

/// The text before the cursor, for a cursor at byte offset `pos`.
pub open spec fn word_before(line: Seq<char>, pos: int) -> Seq<char> {
    line.take(fit_chars(line, pos) as int)
}

/// `pos` is a character boundary of `line` (at most its length).
pub open spec fn is_boundary(line: Seq<char>, pos: int) -> bool {
    byte_len(word_before(line, pos)) == pos
}

/// What `complete` offers: nothing (at the cursor) unless the text before
/// the cursor starts with `/`; otherwise, from the start of the line, every
/// command whose name starts with that text.
pub open spec fn spec_complete(skills: Seq<Skill>, line: Seq<char>, pos: int) -> (int, Seq<
    (Seq<char>, Seq<char>),
>) {
    let word = word_before(line, pos);
    if !starts_with(word, seq!['/']) {
        (pos, seq![])
    } else {
        (0, candidates(spec_commands(skills), word))
    }
}

/// The first command, among `cmds`, that extends `line` (starts with it and
/// is longer), if any.
pub open spec fn first_extension(cmds: Seq<(Seq<char>, Seq<char>)>, line: Seq<char>) -> Option<
    Seq<char>,
>
    decreases cmds.len(),
{
    if cmds.len() == 0 {
        None
    } else if starts_with(cmds[0].0, line) && cmds[0].0 != line {
        Some(cmds[0].0)
    } else {
        first_extension(cmds.drop_first(), line)
    }
}

/// What `hint` shows: with the cursor at the end of a line starting with
/// `/`, the rest of the first command that extends the line.
pub open spec fn spec_hint(skills: Seq<Skill>, line: Seq<char>, pos: int) -> Option<Seq<char>> {
    if pos < byte_len(line) || !starts_with(line, seq!['/']) {
        None
    } else {
        match first_extension(spec_commands(skills), line) {
            Some(name) => Some(name.skip(line.len() as int)),
            None => None,
        }
    }
}

/// The ghost text shown after the cursor.
pub struct CommandHint(pub String);

impl CommandHint {
    /// The text shown.
    pub fn display(&self) -> (r: &str)
        ensures
            r@ == self.0@,
    {
        self.0.as_str()
    }

    /// The text inserted when the hint is accepted: the same text.
    pub fn completion(&self) -> (r: Option<&str>)
        ensures
            r matches Some(s) && s@ == self.0@,
    {
        Some(self.0.as_str())
    }
}

/// Tab completion and hints for `/skill` commands and `/model`.
pub struct KapHelper {
    skills: Vec<Skill>,
}

impl KapHelper {
    /// The skills the helper completes.
    pub closed spec fn skill_list(&self) -> Seq<Skill> {
        self.skills@
    }

    pub fn new(skills: Vec<Skill>) -> (h: Self)
        ensures
            h.skill_list() == skills@,
    {
        KapHelper { skills }
    }

    /// All known commands (built-ins, then loaded skills), with their
    /// descriptions.
    pub fn all_commands(&self) -> (r: Vec<(String, String)>)
        ensures
            r@.map_values(|c: (String, String)| (c.0@, c.1@)) == spec_commands(self.skill_list()),
    {
        let mut out: Vec<(String, String)> = Vec::new();
        out.push((MODEL_COMMAND.to_string(), MODEL_COMMAND_DESCRIPTION.to_string()));
        let mut i: usize = 0;
        while i < self.skills.len()
            invariant
                i <= self.skills.len(),
                out@.len() == i + 1,
                out@[0].0@ == MODEL_COMMAND@,
                out@[0].1@ == MODEL_COMMAND_DESCRIPTION@,
                forall|k: int|
                    0 <= k < i ==> (#[trigger] out@[k + 1]).0@ == self.skills@[k].name@
                        && out@[k + 1].1@ == self.skills@[k].description@,
            decreases self.skills.len() - i,
        {
            out.push((self.skills[i].name.clone(), self.skills[i].description.clone()));
            i += 1;
        }
        assert forall|k: int| 0 <= k < out@.len() implies out@.map_values(
            |c: (String, String)| (c.0@, c.1@),
        )[k] == spec_commands(self.skill_list())[k] by {
            if k > 0 {
                assert(out@[(k - 1) + 1].0@ == self.skills@[k - 1].name@);
            }
        }
        assert(out@.map_values(|c: (String, String)| (c.0@, c.1@)) =~= spec_commands(
            self.skill_list(),
        ));
        out
    }

    /// Completion candidates for the text before the cursor (`pos`, a byte
    /// offset): the start of the replacement and the candidates.
    pub fn complete(&self, line: &str, pos: usize) -> (r: (usize, Vec<Pair>))
        requires
            is_boundary(line@, pos as int),
        ensures
            (r.0 as int, pairs_view(r.1@)) == spec_complete(self.skill_list(), line@, pos as int),
    {
        let lv = chars_of(line);
        let (k, _) = fit_prefix(&lv, pos);
        let word = slice_chars(&lv, 0, k);
        assert(word@ =~= word_before(line@, pos as int));
        let slash = vec!['/'];
        if !(word.len() > 0 && word[0] == '/') {
            proof {
                assert(slash@ =~= seq!['/']);
                if starts_with(word@, seq!['/']) {
                    assert(word@[0] == '/');
                }
            }
            return (pos, Vec::new());
        }
        assert(starts_with(word@, seq!['/'])) by {
            assert(word@.take(1) =~= seq!['/']);
        }
        let cmds = self.all_commands();
        let ghost cv = cmds@.map_values(|c: (String, String)| (c.0@, c.1@));
        let mut out: Vec<Pair> = Vec::new();
        let mut i: usize = 0;
        assert(cv.take(0) =~= Seq::<(Seq<char>, Seq<char>)>::empty());
        while i < cmds.len()
            invariant
                i <= cmds.len(),
                cv == cmds@.map_values(|c: (String, String)| (c.0@, c.1@)),
                pairs_view(out@) == candidates(cv.take(i as int), word@),
            decreases cmds.len() - i,
        {
            let name = chars_of(cmds[i].0.as_str());
            assert(cv.take(i + 1).drop_last() =~= cv.take(i as int));
            assert(cv.take(i + 1).last() == cv[i as int]);
            if crate::text::matches_at(&name, 0, &word) {
                let mut d: Vec<char> = Vec::new();
                push_all(&mut d, &name);
                push_str(&mut d, "  \x1b[90m");
                push_str(&mut d, cmds[i].1.as_str());
                push_str(&mut d, "\x1b[0m");
                let ghost before = pairs_view(out@);
                out.push(Pair { display: string_of(&d), replacement: cmds[i].0.clone() });
                assert(pairs_view(out@) =~= before.push(candidate(cv[i as int])));
            }
            i += 1;
        }
        assert(cv.take(i as int) =~= cv);
        (0, out)
    }

    /// The hint shown after the cursor, if any.
    pub fn hint(&self, line: &str, pos: usize) -> (r: Option<CommandHint>)
        ensures
            match spec_hint(self.skill_list(), line@, pos as int) {
                None => r is None,
                Some(h) => r matches Some(c) && c.0@ == h,
            },
    {
        let lv = chars_of(line);
        let total = crate::text::byte_len_chars(&lv);
        if (pos as u128) < total || !(lv.len() > 0 && lv[0] == '/') {
            proof {
                if starts_with(line@, seq!['/']) {
                    assert(line@.subrange(0, 1)[0] == line@[0]);
                    assert(lv@[0] == '/');
                }
            }
            return None;
        }
        assert(starts_with(line@, seq!['/'])) by {
            assert(line@.take(1) =~= seq!['/']);
        }
        let cmds = self.all_commands();
        let ghost cv = cmds@.map_values(|c: (String, String)| (c.0@, c.1@));
        let mut i: usize = 0;
        assert(cv.skip(0) =~= cv);
        while i < cmds.len()
            invariant
                i <= cmds.len(),
                lv@ == line@,
                total == byte_len(line@),
                pos >= total,
                starts_with(line@, seq!['/']),
                cv == spec_commands(self.skill_list()),
                cv == cmds@.map_values(|c: (String, String)| (c.0@, c.1@)),
                first_extension(cv, line@) == first_extension(cv.skip(i as int), line@),
            decreases cmds.len() - i,
        {
            let name = chars_of(cmds[i].0.as_str());
            assert(cv.skip(i as int)[0] == cv[i as int]);
            assert(cv.skip(i as int).drop_first() =~= cv.skip(i + 1));
            if crate::text::matches_at(&name, 0, &lv) && !eq_chars(&name, &lv) {
                assert(cv[i as int].0 == name@);
                assert(first_extension(cv.skip(i as int), line@) == Some(name@));
                let rest = slice_chars(&name, lv.len(), name.len());
                assert(rest@ =~= name@.skip(line@.len() as int));
                assert(!(pos < byte_len(line@)));
                assert(spec_commands(self.skill_list()) == cv);
                assert(first_extension(spec_commands(self.skill_list()), line@) == Some(name@));
                assert(spec_hint(self.skill_list(), line@, pos as int) == Some(rest@));
                return Some(CommandHint(string_of(&rest)));
            }
            i += 1;
        }
        assert(cv.skip(i as int) =~= Seq::<(Seq<char>, Seq<char>)>::empty());
        None
    }

    /// A hint shown dim grey.
    pub fn highlight_hint(&self, hint: &str) -> (r: String)
        ensures
            r@ == "\x1b[90m"@ + hint@ + "\x1b[0m"@,
    {
        let mut out: Vec<char> = Vec::new();
        push_str(&mut out, "\x1b[90m");
        push_str(&mut out, hint);
        push_str(&mut out, "\x1b[0m");
        string_of(&out)
    }

    /// A line starting with `/` shown green; any other line as it is.
    pub fn highlight(&self, line: &str) -> (r: String)
        ensures
            r@ == if starts_with(line@, seq!['/']) {
                "\x1b[32m"@ + line@ + "\x1b[0m"@
            } else {
                line@
            },
    {
        if self.highlight_char(line) {
            let mut out: Vec<char> = Vec::new();
            push_str(&mut out, "\x1b[32m");
            push_str(&mut out, line);
            push_str(&mut out, "\x1b[0m");
            string_of(&out)
        } else {
            line.to_string()
        }
    }

    /// Whether the line needs redrawing as characters are typed: it starts
    /// with `/`.
    pub fn highlight_char(&self, line: &str) -> (r: bool)
        ensures
            r == starts_with(line@, seq!['/']),
    {
        let lv = chars_of(line);
        let r = lv.len() > 0 && lv[0] == '/';
        proof {
            if r {
                assert(line@.take(1) =~= seq!['/']);
            } else if starts_with(line@, seq!['/']) {
                assert(line@.subrange(0, 1)[0] == line@[0]);
                assert(lv@[0] == '/');
            }
        }
        r
    }
}

/// Every completion offered starts with the text it completes.
pub proof fn lemma_candidates_extend_word(cmds: Seq<(Seq<char>, Seq<char>)>, word: Seq<char>)
    ensures
        forall|i: int|
            0 <= i < candidates(cmds, word).len() ==> starts_with(
                #[trigger] candidates(cmds, word)[i].1,
                word,
            ),
    decreases cmds.len(),
{
    if cmds.len() > 0 {
        lemma_candidates_extend_word(cmds.drop_last(), word);
        let prev = candidates(cmds.drop_last(), word);
        assert forall|i: int|
            0 <= i < candidates(cmds, word).len() implies starts_with(
            #[trigger] candidates(cmds, word)[i].1,
            word,
        ) by {
            if i < prev.len() {
                assert(candidates(cmds, word)[i] == prev[i]);
            }
        }
    }
}

proof fn lemma_first_extension(cmds: Seq<(Seq<char>, Seq<char>)>, line: Seq<char>)
    ensures
        first_extension(cmds, line) matches Some(name) ==> starts_with(name, line) && name != line
            && exists|i: int| 0 <= i < cmds.len() && #[trigger] cmds[i].0 == name,
    decreases cmds.len(),
{
    if cmds.len() > 0 && !(starts_with(cmds[0].0, line) && cmds[0].0 != line) {
        lemma_first_extension(cmds.drop_first(), line);
        if first_extension(cmds, line) is Some {
            let name = first_extension(cmds, line)->Some_0;
            let i = choose|i: int| 0 <= i < cmds.drop_first().len() && #[trigger] cmds.drop_first()[i].0 == name;
            assert(cmds[i + 1].0 == name);
        }
    } else if cmds.len() > 0 {
        assert(cmds[0].0 == cmds[0].0);
    }
}

/// Accepting a hint turns the line into a known command that is longer
/// than what was typed.
pub proof fn lemma_hint_completes_command(skills: Seq<Skill>, line: Seq<char>, pos: int)
    requires
        spec_hint(skills, line, pos) is Some,
    ensures
        exists|i: int|
            0 <= i < spec_commands(skills).len() && #[trigger] spec_commands(skills)[i].0 == line
                + spec_hint(skills, line, pos)->Some_0,
        spec_hint(skills, line, pos)->Some_0.len() > 0,
{
    let cmds = spec_commands(skills);
    lemma_first_extension(cmds, line);
    let name = first_extension(cmds, line)->Some_0;
    assert(line + name.skip(line.len() as int) =~= name) by {
        assert(name.subrange(0, line.len() as int) == line);
    }
    if name.skip(line.len() as int).len() == 0 {
        assert(name =~= line);
    }
}

} // verus!
