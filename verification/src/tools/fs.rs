//! File tools: what they resolve, report and return.  The reads and writes
//! themselves are done by the program.
use crate::text::{
    byte_len, byte_len_chars, chars_of, decimal, ends_with, lemma_seq_lt_irreflexive,
    lemma_seq_lt_transitive, push_decimal_u128, push_str, seq_lt, starts_with, string_of,
};
use vstd::prelude::*;

verus! {

broadcast use vstd::seq_lib::group_to_multiset_ensures;

/// Error of a file tool.
pub struct FsError(pub String);

impl FsError {
    /// The error as shown to the model: `fs error: ` and the message.
    pub fn display(&self) -> (r: String)
        ensures
            r@ == "fs error: "@ + self.0@,
    {
        let mut out: Vec<char> = Vec::new();
        push_str(&mut out, "fs error: ");
        push_str(&mut out, self.0.as_str());
        string_of(&out)
    }
}

/// `path` taken relative to `working_dir` (`Path::join` on Unix): an
/// absolute path stands as it is; otherwise the two are joined by one `/`.
pub open spec fn spec_resolve(working_dir: Seq<char>, path: Seq<char>) -> Seq<char> {
    if starts_with(path, seq!['/']) || working_dir.len() == 0 {
        path
    } else if ends_with(working_dir, seq!['/']) {
        working_dir + path
    } else {
        working_dir + seq!['/'] + path
    }
}

/// Resolve a tool's path argument against the working directory.
pub fn resolve(working_dir: &str, path: &str) -> (r: String)
    ensures
        r@ == spec_resolve(working_dir@, path@),
{
    let wd = chars_of(working_dir);
    let p = chars_of(path);
    let absolute = p.len() > 0 && p[0] == '/';
    proof {
        if absolute {
            assert(path@.subrange(0, 1) =~= seq!['/']);
        } else if starts_with(path@, seq!['/']) {
            assert(path@.subrange(0, 1)[0] == path@[0]);
        }
    }
    if absolute || wd.len() == 0 {
        return path.to_string();
    }
    let slash_end = wd[wd.len() - 1] == '/';
    proof {
        if slash_end {
            assert(working_dir@.subrange(working_dir@.len() - 1, working_dir@.len() as int) =~= seq!['/']);
        } else if ends_with(working_dir@, seq!['/']) {
            assert(working_dir@.subrange(working_dir@.len() - 1, working_dir@.len() as int)[0]
                == working_dir@[working_dir@.len() - 1]);
        }
    }
    let mut out: Vec<char> = Vec::new();
    push_str(&mut out, working_dir);
    if !slash_end {
        out.push('/');
    }
    push_str(&mut out, path);
    assert(out@ =~= spec_resolve(working_dir@, path@));
    string_of(&out)
}

/// Arguments of `read_file`.
pub struct ReadFileArgs {
    pub path: String,
}

/// Arguments of `write_file`.
pub struct WriteFileArgs {
    pub path: String,
    pub content: String,
}

/// Arguments of `list_dir`.
pub struct ListDirArgs {
    pub path: Option<String>,
}

/// One entry of a directory listing: its name and `"dir"` or `"file"`.
pub struct DirEntry {
    pub name: String,
    pub kind: String,
}

/// Reads a file under the working directory.
pub struct ReadFile {
    pub working_dir: String,
}

/// Writes a file under the working directory.
pub struct WriteFile {
    pub working_dir: String,
}

/// Lists a directory under the working directory.
pub struct ListDir {
    pub working_dir: String,
}

/// The error of a failed read or write: the path and the error text.
pub open spec fn spec_io_error(path: Seq<char>, err: Seq<char>) -> Seq<char> {
    path + ": "@ + err
}

/// An error naming the path it concerns.
pub fn io_error(path: &str, err: &str) -> (r: FsError)
    ensures
        r.0@ == spec_io_error(path@, err@),
{
    let mut out: Vec<char> = Vec::new();
    push_str(&mut out, path);
    push_str(&mut out, ": ");
    push_str(&mut out, err);
    FsError(string_of(&out))
}

impl ReadFile {
    pub fn new(working_dir: &str) -> (r: Self)
        ensures
            r.working_dir@ == working_dir@,
    {
        ReadFile { working_dir: working_dir.to_string() }
    }

    /// The file a call reads.
    pub fn target(&self, args: &ReadFileArgs) -> (r: String)
        ensures
            r@ == spec_resolve(self.working_dir@, args.path@),
    {
        resolve(self.working_dir.as_str(), args.path.as_str())
    }
}

impl WriteFile {
    pub fn new(working_dir: &str) -> (r: Self)
        ensures
            r.working_dir@ == working_dir@,
    {
        WriteFile { working_dir: working_dir.to_string() }
    }

    /// The file a call writes.
    pub fn target(&self, args: &WriteFileArgs) -> (r: String)
        ensures
            r@ == spec_resolve(self.working_dir@, args.path@),
    {
        resolve(self.working_dir.as_str(), args.path.as_str())
    }

    /// What a successful write reports: the content's size in bytes and
    /// the path written.
    pub fn written(&self, args: &WriteFileArgs, path: &str) -> (r: String)
        ensures
            r@ == "wrote "@ + decimal(byte_len(args.content@)) + " bytes to "@ + path@,
    {
        let content = chars_of(args.content.as_str());
        let mut out: Vec<char> = Vec::new();
        push_str(&mut out, "wrote ");
        push_decimal_u128(&mut out, byte_len_chars(&content));
        push_str(&mut out, " bytes to ");
        push_str(&mut out, path);
        string_of(&out)
    }

    /// The error of a failed creation of the parent directories.
    pub fn mkdir_error(parent: &str, err: &str) -> (r: FsError)
        ensures
            r.0@ == "create dirs "@ + parent@ + ": "@ + err@,
    {
        let mut out: Vec<char> = Vec::new();
        push_str(&mut out, "create dirs ");
        push_str(&mut out, parent);
        push_str(&mut out, ": ");
        push_str(&mut out, err);
        FsError(string_of(&out))
    }
}

pub open spec fn entries_view(v: Seq<DirEntry>) -> Seq<(Seq<char>, Seq<char>)> {
    v.map_values(|e: DirEntry| (e.name@, e.kind@))
}

/// Entries in order of name (lexicographic, as `String` compares).
pub open spec fn sorted_by_name(s: Seq<(Seq<char>, Seq<char>)>) -> bool {
    forall|i: int, j: int| 0 <= i < j < s.len() ==> !seq_lt(#[trigger] s[j].0, #[trigger] s[i].0)
}

impl ListDir {
    pub fn new(working_dir: &str) -> (r: Self)
        ensures
            r.working_dir@ == working_dir@,
    {
        ListDir { working_dir: working_dir.to_string() }
    }

    /// The directory a call lists: the given path, or the working
    /// directory itself.
    pub fn target(&self, args: &ListDirArgs) -> (r: String)
        ensures
            r@ == spec_resolve(
                self.working_dir@,
                match args.path {
                    Some(p) => p@,
                    None => "."@,
                },
            ),
    {
        match &args.path {
            Some(p) => resolve(self.working_dir.as_str(), p.as_str()),
            None => resolve(self.working_dir.as_str(), "."),
        }
    }

    /// The listing returned to the model: the entries sorted by name.
    pub fn sort_entries(entries: Vec<DirEntry>) -> (r: Vec<DirEntry>)
        ensures
            entries_view(r@).to_multiset() == entries_view(entries@).to_multiset(),
            sorted_by_name(entries_view(r@)),
    {
        let ghost ev = entries_view(entries@);
        let mut out: Vec<DirEntry> = Vec::new();
        let mut rest = entries;
        assert(entries_view(out@) =~= Seq::<(Seq<char>, Seq<char>)>::empty());
        while rest.len() > 0
            invariant
                entries_view(out@).to_multiset().add(entries_view(rest@).to_multiset())
                    == ev.to_multiset(),
                sorted_by_name(entries_view(out@)),
            decreases rest.len(),
        {
            let ghost rv = entries_view(rest@);
            let ghost ov = entries_view(out@);
            let x = rest.remove(0);
            let ghost xv = (x.name@, x.kind@);
            assert(entries_view(rest@) =~= rv.remove(0));
            assert(rv[0] == xv);
            // Insert after every entry whose name is not greater than x's,
            // so that equal names keep their order.
            let xn = chars_of(x.name.as_str());
            let mut p: usize = 0;
            while p < out.len() && !crate::text::chars_lt(&xn, &chars_of(out[p].name.as_str()))
                invariant
                    p <= out.len(),
                    xn@ == xv.0,
                    entries_view(out@) == ov,
                    forall|k: int| 0 <= k < p ==> !seq_lt(xv.0, #[trigger] ov[k].0),
                decreases out.len() - p,
            {
                p += 1;
            }
            assert(p < out.len() ==> seq_lt(xv.0, ov[p as int].0));
            out.insert(p, x);
            let ghost nv = entries_view(out@);
            assert(nv =~= ov.insert(p as int, xv));
            assert forall|i: int, j: int| 0 <= i < j < nv.len() implies !seq_lt(
                #[trigger] nv[j].0,
                #[trigger] nv[i].0,
            ) by {
                if j < p {
                    assert(nv[i] == ov[i] && nv[j] == ov[j]);
                } else if j == p {
                    assert(nv[i] == ov[i]);
                } else if i == p {
                    // ov[p] is greater than x, and ov[j - 1] is not less than ov[p]
                    assert(nv[j] == ov[j - 1]);
                    if seq_lt(ov[j - 1].0, xv.0) {
                        lemma_seq_lt_transitive(ov[j - 1].0, xv.0, ov[p as int].0);
                        if j - 1 > p {
                            assert(!seq_lt(ov[j - 1].0, ov[p as int].0));
                        } else {
                            lemma_seq_lt_irreflexive(ov[p as int].0);
                        }
                    }
                } else if i < p {
                    assert(nv[i] == ov[i] && nv[j] == ov[j - 1]);
                } else {
                    assert(nv[i] == ov[i - 1] && nv[j] == ov[j - 1]);
                }
            }
            assert(rv =~= seq![xv] + rv.remove(0));
            assert((seq![xv] + rv.remove(0)).to_multiset() =~= rv.remove(0).to_multiset().insert(xv)) by {
                vstd::seq_lib::lemma_multiset_commutative(seq![xv], rv.remove(0));
                assert((rv.remove(0) + seq![xv]) =~= rv.remove(0).push(xv));
            }
        }
        assert(entries_view(rest@) =~= Seq::<(Seq<char>, Seq<char>)>::empty());
        out
    }
}

} // verus!
