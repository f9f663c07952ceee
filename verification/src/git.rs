//! What the viewer knows about git: the comparison being shown, how files
//! changed, and how git's output is read.
//!
//! The `git` binary itself is run by the program around this library; every
//! decision about what to run and how to read what came back is made here.
use vstd::prelude::*;
use vstd::utf8::valid_utf8;
use vstd::utf8::encode_utf8;
use vstd::std_specs::cmp::PartialEqSpecImpl;
use crate::text::{
    chars_of, digits_value, lemma_seq_lt_asym, lemma_seq_lt_irreflexive, lemma_seq_lt_total,
    lemma_seq_lt_trans, owned, parse_usize, parse_usize_spec, push_decimal, push_str, decimal_spec,
    seq_lt, split_char, split_spec, str_eq, str_less, string_of, strip_prefix, starts_with_spec,
    trim, trim_spec,
};

verus! {

/// What the left and right panes are comparing.
#[derive(Debug)]
pub enum Spec {
    /// `HEAD` (left) against the working tree (right).
    Worktree,
    /// `HEAD` (left) against the index (right) -- i.e. `--staged`.
    Staged,
    /// A revision (left) against the working tree (right).
    Rev(String),
    /// Two revisions.
    Range(String, String),
}

/// A `Spec` as mathematical values.
pub enum SpecModel {
    Worktree,
    Staged,
    Rev(Seq<char>),
    Range(Seq<char>, Seq<char>),
}

impl View for Spec {
    type V = SpecModel;

    open spec fn view(&self) -> SpecModel {
        match self {
            Spec::Worktree => SpecModel::Worktree,
            Spec::Staged => SpecModel::Staged,
            Spec::Rev(r) => SpecModel::Rev(r@),
            Spec::Range(a, b) => SpecModel::Range(a@, b@),
        }
    }
}

impl PartialEq for Spec {
    fn eq(&self, other: &Self) -> (r: bool) {
        match (self, other) {
            (Spec::Worktree, Spec::Worktree) => true,
            (Spec::Staged, Spec::Staged) => true,
            (Spec::Rev(a), Spec::Rev(b)) => str_eq(a.as_str(), b.as_str()),
            (Spec::Range(a, b), Spec::Range(c, d)) => str_eq(a.as_str(), c.as_str()) && str_eq(
                b.as_str(),
                d.as_str(),
            ),
            _ => false,
        }
    }
}

impl PartialEqSpecImpl for Spec {
    open spec fn obeys_eq_spec() -> bool {
        true
    }

    open spec fn eq_spec(&self, other: &Self) -> bool {
        self@ == other@
    }
}

impl Clone for Spec {
    fn clone(&self) -> (r: Self)
        ensures
            r@ == self@,
    {
        match self {
            Spec::Worktree => Spec::Worktree,
            Spec::Staged => Spec::Staged,
            Spec::Rev(r) => Spec::Rev(r.clone()),
            Spec::Range(a, b) => Spec::Range(a.clone(), b.clone()),
        }
    }
}

pub open spec fn old_label_spec(s: SpecModel) -> Seq<char> {
    match s {
        SpecModel::Worktree | SpecModel::Staged => "HEAD"@,
        SpecModel::Rev(r) => r,
        SpecModel::Range(a, _) => a,
    }
}

pub open spec fn new_label_spec(s: SpecModel) -> Seq<char> {
    match s {
        SpecModel::Worktree => "working tree"@,
        SpecModel::Staged => "index"@,
        SpecModel::Rev(_) => "working tree"@,
        SpecModel::Range(_, b) => b,
    }
}

pub open spec fn revisions_spec(s: SpecModel) -> Seq<Seq<char>> {
    match s {
        SpecModel::Worktree | SpecModel::Staged => Seq::empty(),
        SpecModel::Rev(r) => seq![r],
        SpecModel::Range(a, b) => seq![a, b],
    }
}

pub open spec fn diff_args_spec(s: SpecModel) -> Seq<Seq<char>> {
    match s {
        SpecModel::Worktree => seq!["HEAD"@],
        SpecModel::Staged => seq!["--cached"@, "HEAD"@],
        SpecModel::Rev(r) => seq![r],
        SpecModel::Range(a, b) => seq![a, b],
    }
}

pub open spec fn right_is_worktree_spec(s: SpecModel) -> bool {
    s is Worktree || s is Rev
}

pub open spec fn strs_model(v: Seq<&str>) -> Seq<Seq<char>> {
    Seq::new(v.len(), |i: int| v[i]@)
}

pub open spec fn strings_of(v: Seq<String>) -> Seq<Seq<char>> {
    Seq::new(v.len(), |i: int| v[i]@)
}

impl Spec {
    /// Label shown above the left pane.
    pub fn old_label(&self) -> (r: String)
        ensures
            r@ == old_label_spec(self@),
    {
        match self {
            Spec::Worktree | Spec::Staged => owned("HEAD"),
            Spec::Rev(r) => r.clone(),
            Spec::Range(a, _) => a.clone(),
        }
    }

    /// Label shown above the right pane.
    pub fn new_label(&self) -> (r: String)
        ensures
            r@ == new_label_spec(self@),
    {
        match self {
            Spec::Worktree => owned("working tree"),
            Spec::Staged => owned("index"),
            Spec::Rev(_) => owned("working tree"),
            Spec::Range(_, b) => b.clone(),
        }
    }

    /// The revisions this comparison names, for validation. The working tree
    /// and index sides are not revisions and need no check.
    pub fn revisions(&self) -> (r: Vec<&str>)
        ensures
            strs_model(r@) == revisions_spec(self@),
    {
        let mut v: Vec<&str> = Vec::new();
        match self {
            Spec::Worktree | Spec::Staged => {},
            Spec::Rev(r) => {
                v.push(r.as_str());
            },
            Spec::Range(a, b) => {
                v.push(a.as_str());
                v.push(b.as_str());
            },
        }
        proof {
            assert(strs_model(v@) =~= revisions_spec(self@));
        }
        v
    }

    /// The arguments that make `git diff` produce this comparison.
    pub fn diff_args(&self) -> (r: Vec<String>)
        ensures
            strings_of(r@) == diff_args_spec(self@),
    {
        let mut v: Vec<String> = Vec::new();
        match self {
            Spec::Worktree => {
                v.push(owned("HEAD"));
            },
            Spec::Staged => {
                v.push(owned("--cached"));
                v.push(owned("HEAD"));
            },
            Spec::Rev(r) => {
                v.push(r.clone());
            },
            Spec::Range(a, b) => {
                v.push(a.clone());
                v.push(b.clone());
            },
        }
        proof {
            assert(strings_of(v@) =~= diff_args_spec(self@));
        }
        v
    }

    /// True when the right-hand side is the on-disk working tree, which is the
    /// only case where untracked files are worth listing.
    pub fn right_is_worktree(&self) -> (r: bool)
        ensures
            r == right_is_worktree_spec(self@),
    {
        match self {
            Spec::Worktree | Spec::Rev(_) => true,
            _ => false,
        }
    }
}

/// How a file changed between the two sides.
#[derive(Debug, Clone, Copy, PartialEq, Eq, Structural)]
pub enum Status {
    Added,
    Modified,
    Deleted,
    Renamed,
    Copied,
    TypeChanged,
    Unmerged,
    Untracked,
}

/// The status of a `--name-status` code: its first letter decides, and
/// anything unrecognised (including `M`) counts as a modification.
pub open spec fn from_code_spec(code: Seq<char>) -> Status {
    if code.len() == 0 {
        Status::Modified
    } else if code[0] == 'A' {
        Status::Added
    } else if code[0] == 'D' {
        Status::Deleted
    } else if code[0] == 'R' {
        Status::Renamed
    } else if code[0] == 'C' {
        Status::Copied
    } else if code[0] == 'T' {
        Status::TypeChanged
    } else if code[0] == 'U' {
        Status::Unmerged
    } else {
        Status::Modified
    }
}

pub open spec fn badge_spec(s: Status) -> Seq<char> {
    match s {
        Status::Added => "A"@,
        Status::Modified => "M"@,
        Status::Deleted => "D"@,
        Status::Renamed => "R"@,
        Status::Copied => "C"@,
        Status::TypeChanged => "T"@,
        Status::Unmerged => "U"@,
        Status::Untracked => "?"@,
    }
}

impl Status {
    /// The status a `--name-status` code stands for.
    pub fn from_code(code: &str) -> (r: Status)
        ensures
            r == from_code_spec(code@),
    {
        let v = chars_of(code);
        if v.len() == 0 {
            return Status::Modified;
        }
        let c = v[0];
        if c == 'A' {
            Status::Added
        } else if c == 'D' {
            Status::Deleted
        } else if c == 'R' {
            Status::Renamed
        } else if c == 'C' {
            Status::Copied
        } else if c == 'T' {
            Status::TypeChanged
        } else if c == 'U' {
            Status::Unmerged
        } else {
            Status::Modified
        }
    }

    /// Single-letter badge for the file tree, matching `git status` codes.
    pub fn badge(self) -> (r: &'static str)
        ensures
            r@ == badge_spec(self),
    {
        match self {
            Status::Added => "A",
            Status::Modified => "M",
            Status::Deleted => "D",
            Status::Renamed => "R",
            Status::Copied => "C",
            Status::TypeChanged => "T",
            Status::Unmerged => "U",
            Status::Untracked => "?",
        }
    }
}

/// One changed file.
#[derive(Debug)]
pub struct FileEntry {
    /// Path on the new side -- what the tree displays and what we key on.
    pub path: String,
    /// Path on the old side. Differs from `path` only for renames and copies.
    pub old_path: String,
    pub status: Status,
}

/// A `FileEntry` as mathematical values.
pub struct EntryModel {
    pub path: Seq<char>,
    pub old_path: Seq<char>,
    pub status: Status,
}

impl View for FileEntry {
    type V = EntryModel;

    open spec fn view(&self) -> EntryModel {
        EntryModel { path: self.path@, old_path: self.old_path@, status: self.status }
    }
}

impl Clone for FileEntry {
    fn clone(&self) -> (r: Self)
        ensures
            r@ == self@,
    {
        FileEntry { path: self.path.clone(), old_path: self.old_path.clone(), status: self.status }
    }
}

pub open spec fn entries_model(v: Seq<FileEntry>) -> Seq<EntryModel> {
    Seq::new(v.len(), |i: int| v[i]@)
}

/// One side of a file's contents, already classified.
#[derive(Debug)]
pub enum Blob {
    Text(String),
    Binary,
    /// The file does not exist on this side (added or deleted).
    Absent,
}

impl Blob {
    pub fn text(&self) -> (r: &str)
        ensures
            r@ == match self {
                Blob::Text(s) => s@,
                _ => Seq::<char>::empty(),
            },
    {
        match self {
            Blob::Text(s) => s.as_str(),
            _ => {
                proof {
                    reveal_strlit("");
                }
                ""
            },
        }
    }
}

/// Whether a picker preview of a file needs its old side: only when the new
/// side is not text (a deleted file has none).
pub fn preview_needs_old(new_side: &Result<Blob, String>) -> (r: bool)
    ensures
        r == !(new_side matches Ok(Blob::Text(_))),
{
    match new_side {
        Ok(Blob::Text(_)) => false,
        _ => true,
    }
}

/// What a picker preview shows of a file: its new side when that is text,
/// else its old side, when that could be read.
pub fn preview_side(new_side: Result<Blob, String>, old_side: Result<Blob, String>) -> (r: Option<Blob>)
    ensures
        r == match new_side {
            Ok(Blob::Text(t)) => Some(Blob::Text(t)),
            _ => match old_side {
                Ok(b) => Some(b),
                Err(_) => None,
            },
        },
{
    match new_side {
        Ok(Blob::Text(t)) => Some(Blob::Text(t)),
        _ => match old_side {
            Ok(b) => Some(b),
            Err(_) => None,
        },
    }
}

// ---------------------------------------------------------- classifying

/// `String::from_utf8`: the text that `bytes` encode, when they are valid
/// UTF-8, and `None` otherwise, as its documentation states.
#[verifier::external_body]
fn utf8_string(bytes: Vec<u8>) -> (r: Option<String>)
    ensures
        r is Some <==> valid_utf8(bytes@),
        r matches Some(s) ==> encode_utf8(s@) == bytes@,
{
    String::from_utf8(bytes).ok()
}

/// How many bytes git inspects when it guesses whether a file is binary.
pub open spec fn probe_len(n: nat) -> nat {
    if n < 8000 { n } else { 8000 }
}

/// git's own heuristic: a NUL byte anywhere in the first 8000 bytes means binary.
pub open spec fn has_nul_prefix(bytes: Seq<u8>) -> bool {
    exists|i: int| 0 <= i < probe_len(bytes.len()) && bytes[i] == 0
}

/// git's own heuristic: a NUL byte anywhere in the first 8000 bytes means
/// binary; so do bytes that are not UTF-8. Everything else is text.
pub fn classify(bytes: Vec<u8>) -> (r: Blob)
    ensures
        has_nul_prefix(bytes@) ==> r is Binary,
        !has_nul_prefix(bytes@) && !valid_utf8(bytes@) ==> r is Binary,
        !has_nul_prefix(bytes@) && valid_utf8(bytes@) ==> (r matches Blob::Text(s) && encode_utf8(s@) == bytes@),
{
    let n = if bytes.len() < 8000 {
        bytes.len()
    } else {
        8000
    };
    let mut i: usize = 0;
    while i < n
        invariant
            n as nat == probe_len(bytes@.len()),
            n <= bytes.len(),
            i <= n,
            forall|k: int| 0 <= k < i ==> bytes@[k] != 0,
        decreases n - i,
    {
        if bytes[i] == 0 {
            return Blob::Binary;
        }
        i = i + 1;
    }
    let ghost b = bytes@;
    match utf8_string(bytes) {
        Some(text) => Blob::Text(text),
        None => Blob::Binary,
    }
}

// ------------------------------------------------- reading name-status output

/// The non-empty pieces of `s` split on `sep`, as
/// `s.split(sep).filter(|s| !s.is_empty())` yields them.
pub open spec fn nonempty_fields(s: Seq<char>, sep: char) -> Seq<Seq<char>> {
    nonempty(split_spec(s, sep))
}

pub open spec fn nonempty(p: Seq<Seq<char>>) -> Seq<Seq<char>>
    decreases p.len(),
{
    if p.len() == 0 {
        Seq::empty()
    } else if p.last().len() == 0 {
        nonempty(p.drop_last())
    } else {
        nonempty(p.drop_last()).push(p.last())
    }
}

/// `s.split(sep).filter(|s| !s.is_empty())`, as owned strings.
pub fn nonempty_split(s: &str, sep: char) -> (r: Vec<String>)
    ensures
        strings_of(r@) == nonempty_fields(s@, sep),
{
    let parts = split_char(s, sep);
    let ghost p = split_spec(s@, sep);
    let mut out: Vec<String> = Vec::new();
    let mut i: usize = 0;
    while i < parts.len()
        invariant
            parts@.len() == p.len(),
            forall|k: int| 0 <= k < parts@.len() ==> #[trigger] parts@[k]@ == p[k],
            i <= parts.len(),
            strings_of(out@) == nonempty(p.take(i as int)),
        decreases parts.len() - i,
    {
        proof {
            assert(p.take(i + 1).drop_last() =~= p.take(i as int));
            assert(p.take(i + 1).last() == p[i as int]);
        }
        let piece = &parts[i];
        if !piece.as_str().is_empty() {
            out.push(piece.clone());
            proof {
                assert(strings_of(out@) =~= nonempty(p.take(i as int)).push(p[i as int]));
            }
        }
        i = i + 1;
    }
    proof {
        assert(p.take(i as int) =~= p);
    }
    out
}

pub open spec fn entry_model(path: Seq<char>, old_path: Seq<char>, status: Status) -> EntryModel {
    EntryModel { path, old_path, status }
}

/// The records of `git diff --name-status -z` output, given its non-empty
/// NUL-separated fields. Most are `<code> <path>`, but renames and copies
/// carry two paths, old then new. A record cut short ends the list.
pub open spec fn records_spec(f: Seq<Seq<char>>) -> Seq<EntryModel>
    decreases f.len(),
{
    if f.len() == 0 {
        Seq::empty()
    } else {
        let status = from_code_spec(f[0]);
        if status == Status::Renamed || status == Status::Copied {
            if f.len() < 3 {
                Seq::empty()
            } else {
                seq![entry_model(f[2], f[1], status)] + records_spec(f.skip(3))
            }
        } else {
            if f.len() < 2 {
                Seq::empty()
            } else {
                seq![entry_model(f[1], f[1], status)] + records_spec(f.skip(2))
            }
        }
    }
}

/// Parse `git diff --name-status -z` output.
///
/// Records are NUL-separated. Most are `<code>\0<path>\0`, but renames and
/// copies carry a similarity score and span three fields:
/// `R100\0<old>\0<new>\0`.
pub fn parse_name_status(raw: &str) -> (r: Vec<FileEntry>)
    ensures
        entries_model(r@) == records_spec(nonempty_fields(raw@, '\0')),
{
    let fields = nonempty_split(raw, '\0');
    let ghost f = nonempty_fields(raw@, '\0');
    let mut out: Vec<FileEntry> = Vec::new();
    let mut i: usize = 0;
    proof {
        assert(f.skip(0) =~= f);
        assert(entries_model(out@) + records_spec(f) =~= records_spec(f));
    }
    while i < fields.len()
        invariant
            strings_of(fields@) == f,
            f == nonempty_fields(raw@, '\0'),
            i <= fields.len(),
            entries_model(out@) + records_spec(f.skip(i as int)) == records_spec(f),
        ensures
            entries_model(out@) == records_spec(f),
        decreases fields.len() - i,
    {
        let ghost rest = f.skip(i as int);
        assert(rest[0] == fields@[i as int]@);

        let status = Status::from_code(fields[i].as_str());
        let ghost prev = entries_model(out@);
        if status == Status::Renamed || status == Status::Copied {
            if fields.len() - i < 3 {
                proof {
                    assert(records_spec(rest) == Seq::<EntryModel>::empty());
                    assert(f.skip(fields.len() as int) =~= Seq::<Seq<char>>::empty());
                    assert(entries_model(out@) =~= records_spec(f)) by {
                        assert(entries_model(out@) + Seq::<EntryModel>::empty() =~= entries_model(out@));
                    }
                }
                break;
            }
            let e = FileEntry { path: fields[i + 2].clone(), old_path: fields[i + 1].clone(), status };
            out.push(e);
            proof {
                assert(rest[1] == fields@[i + 1]@);
                assert(rest[2] == fields@[i + 2]@);
                assert(rest.skip(3) =~= f.skip(i + 3));
                assert(entries_model(out@) =~= prev.push(entry_model(rest[2], rest[1], status)));
                assert(entries_model(out@) + records_spec(f.skip(i + 3)) =~= prev + records_spec(rest));
            }
            i = i + 3;
        } else {
            if fields.len() - i < 2 {
                proof {
                    assert(records_spec(rest) == Seq::<EntryModel>::empty());
                    assert(entries_model(out@) =~= records_spec(f)) by {
                        assert(entries_model(out@) + Seq::<EntryModel>::empty() =~= entries_model(out@));
                    }
                }
                break;
            }
            let e = FileEntry { path: fields[i + 1].clone(), old_path: fields[i + 1].clone(), status };
            out.push(e);
            proof {
                assert(rest[1] == fields@[i + 1]@);
                assert(rest.skip(2) =~= f.skip(i + 2));
                assert(entries_model(out@) =~= prev.push(entry_model(rest[1], rest[1], status)));
                assert(entries_model(out@) + records_spec(f.skip(i + 2)) =~= prev + records_spec(rest));
            }
            i = i + 2;
        }
    }
    out
}


// ------------------------------------------------------------ sorting files

/// No earlier entry has the path of entry `i`.
pub open spec fn first_of_its_path(es: Seq<EntryModel>, i: int) -> bool {
    forall|j: int| 0 <= j < i ==> es[j].path != es[i].path
}

/// Some entry of `r` has this path.
pub open spec fn path_listed(r: Seq<EntryModel>, path: Seq<char>) -> bool {
    exists|a: int| 0 <= a < r.len() && r[a].path == path
}

/// `x` is the first entry of its path among the first `n` of `es`.
pub open spec fn first_entry_among(es: Seq<EntryModel>, n: int, x: EntryModel) -> bool {
    exists|k: int| 0 <= k < n && first_of_its_path(es, k) && x == es[k]
}

/// `r` is `es` sorted by path with only the first entry of each path kept:
/// what `sort_by` on the path (a stable sort) followed by `dedup_by` on the
/// path leaves.
pub open spec fn sorted_first_by_path(r: Seq<EntryModel>, es: Seq<EntryModel>) -> bool {
    &&& forall|a: int, b: int| 0 <= a < b < r.len() ==> seq_lt(#[trigger] r[a].path, #[trigger] r[b].path)
    &&& forall|a: int| 0 <= a < r.len() ==> #[trigger] first_entry_among(es, es.len() as int, r[a])
    &&& forall|i: int| 0 <= i < es.len() ==> #[trigger] path_listed(r, es[i].path)
}

/// `r` holds, sorted by path, the first entry of each path among the first
/// `i` entries of `es`.
pub open spec fn sorted_first_upto(r: Seq<EntryModel>, es: Seq<EntryModel>, i: int) -> bool {
    &&& forall|a: int, b: int| 0 <= a < b < r.len() ==> seq_lt(#[trigger] r[a].path, #[trigger] r[b].path)
    &&& forall|a: int| 0 <= a < r.len() ==> #[trigger] first_entry_among(es, i, r[a])
    &&& forall|k: int| 0 <= k < i ==> #[trigger] path_listed(r, es[k].path)
}

proof fn lemma_skip_entry(rm: Seq<EntryModel>, es: Seq<EntryModel>, i: int, p: int)
    requires
        0 <= i < es.len(),
        sorted_first_upto(rm, es, i),
        0 <= p < rm.len(),
        rm[p].path == es[i].path,
    ensures
        sorted_first_upto(rm, es, i + 1),
{
    assert forall|a: int| 0 <= a < rm.len() implies #[trigger] first_entry_among(es, i + 1, rm[a]) by {
        assert(first_entry_among(es, i, rm[a]));
        let k = choose|k: int| 0 <= k < i && first_of_its_path(es, k) && rm[a] == es[k];
        assert(0 <= k < i + 1 && first_of_its_path(es, k) && rm[a] == es[k]);
    }
    assert forall|k: int| 0 <= k < i + 1 implies #[trigger] path_listed(rm, es[k].path) by {
        if k == i {
            assert(rm[p].path == es[k].path);
        } else {
            assert(path_listed(rm, es[k].path));
        }
    }
}

#[verifier::rlimit(40)]
proof fn lemma_insert_entry(rm: Seq<EntryModel>, es: Seq<EntryModel>, i: int, p: int)
    requires
        0 <= i < es.len(),
        sorted_first_upto(rm, es, i),
        0 <= p <= rm.len(),
        forall|k: int| 0 <= k < p ==> seq_lt((#[trigger] rm[k]).path, es[i].path),
        p < rm.len() ==> !seq_lt(rm[p].path, es[i].path) && rm[p].path != es[i].path,
    ensures
        sorted_first_upto(rm.insert(p, es[i]), es, i + 1),
{
    let e = es[i];
    let r2 = rm.insert(p, e);
    if p < rm.len() {
        lemma_seq_lt_total(rm[p].path, e.path);
    }
    assert(first_of_its_path(es, i)) by {
        assert forall|j: int| 0 <= j < i implies es[j].path != es[i].path by {
            assert(path_listed(rm, es[j].path));
            let a = choose|a: int| 0 <= a < rm.len() && rm[a].path == es[j].path;
            if es[j].path == es[i].path {
                if a < p {
                    lemma_seq_lt_irreflexive(e.path);
                } else if a > p {
                    assert(seq_lt(rm[p].path, rm[a].path));
                    lemma_seq_lt_asym(e.path, rm[p].path);
                }
            }
        }
    }
    assert forall|a: int, b: int| 0 <= a < b < r2.len() implies seq_lt(#[trigger] r2[a].path, #[trigger] r2[b].path) by {
        if b < p {
            assert(r2[a] == rm[a] && r2[b] == rm[b]);
        } else if b == p {
            assert(r2[a] == rm[a]);
        } else if a < p {
            assert(r2[a] == rm[a] && r2[b] == rm[b - 1]);
            if b - 1 > p {
                assert(seq_lt(rm[p].path, rm[b - 1].path));
                lemma_seq_lt_trans(rm[a].path, e.path, rm[p].path);
                lemma_seq_lt_trans(rm[a].path, rm[p].path, rm[b - 1].path);
            } else {
                lemma_seq_lt_trans(rm[a].path, e.path, rm[p].path);
            }
        } else if a == p {
            assert(r2[b] == rm[b - 1]);
            if b - 1 > p {
                assert(seq_lt(rm[p].path, rm[b - 1].path));
                lemma_seq_lt_trans(e.path, rm[p].path, rm[b - 1].path);
            }
        } else {
            assert(r2[a] == rm[a - 1] && r2[b] == rm[b - 1]);
        }
    }
    assert forall|a: int| 0 <= a < r2.len() implies #[trigger] first_entry_among(es, i + 1, r2[a]) by {
        if a == p {
            assert(0 <= i < i + 1 && first_of_its_path(es, i) && r2[a] == es[i]);
        } else {
            let b = if a < p { a } else { a - 1 };
            assert(r2[a] == rm[b]);
            assert(first_entry_among(es, i, rm[b]));
            let k = choose|k: int| 0 <= k < i && first_of_its_path(es, k) && rm[b] == es[k];
            assert(0 <= k < i + 1 && first_of_its_path(es, k) && r2[a] == es[k]);
        }
    }
    assert forall|k: int| 0 <= k < i + 1 implies #[trigger] path_listed(r2, es[k].path) by {
        if k == i {
            assert(r2[p].path == es[k].path);
        } else {
            assert(path_listed(rm, es[k].path));
            let a = choose|a: int| 0 <= a < rm.len() && rm[a].path == es[k].path;
            if a < p {
                assert(r2[a] == rm[a]);
            } else {
                assert(r2[a + 1] == rm[a]);
            }
        }
    }
}

/// Adds entry `i` of `es` to `r`, unless an entry with its path is there.
fn add_first_of_path(r: &mut Vec<FileEntry>, e: FileEntry, Ghost(es): Ghost<Seq<EntryModel>>, Ghost(i): Ghost<int>)
    requires
        0 <= i < es.len(),
        e@ == es[i],
        sorted_first_upto(entries_model(old(r)@), es, i),
    ensures
        sorted_first_upto(entries_model(final(r)@), es, i + 1),
{
    let ghost rm = entries_model(r@);
    let mut p: usize = 0;
    while p < r.len() && str_less(r[p].path.as_str(), e.path.as_str())
        invariant
            p <= r@.len(),
            rm == entries_model(r@),
            forall|k: int| 0 <= k < p ==> seq_lt((#[trigger] rm[k]).path, e@.path),
        decreases r.len() - p,
    {
        p = p + 1;
    }
    if p < r.len() && str_eq(r[p].path.as_str(), e.path.as_str()) {
        // An entry with this path came earlier; the first one stays.
        proof {
            lemma_skip_entry(rm, es, i, p as int);
        }
    } else {
        proof {
            lemma_insert_entry(rm, es, i, p as int);
        }
        r.insert(p, e);
        proof {
            assert(entries_model(r@) =~= rm.insert(p as int, es[i]));
        }
    }
}

/// Sorts `files` by path, keeping only the first entry of each path.
pub fn sort_dedup_by_path(files: Vec<FileEntry>) -> (r: Vec<FileEntry>)
    ensures
        sorted_first_by_path(entries_model(r@), entries_model(files@)),
{
    let ghost es = entries_model(files@);
    let mut pending = files;
    let n = pending.len();
    // Take the entries in order by reversing them once.
    let mut rev: Vec<FileEntry> = Vec::new();
    while pending.len() > 0
        invariant
            rev@.len() + pending@.len() == n,
            n == es.len(),
            forall|k: int| 0 <= k < pending@.len() ==> #[trigger] pending@[k]@ == es[k],
            forall|k: int| 0 <= k < rev@.len() ==> #[trigger] rev@[k]@ == es[n - 1 - k],
        decreases pending.len(),
    {
        let e = pending.pop().unwrap();
        rev.push(e);
    }
    let mut r: Vec<FileEntry> = Vec::new();
    let mut i: usize = 0;
    while i < n
        invariant
            i <= n,
            n == es.len(),
            rev@.len() == n - i,
            forall|k: int| 0 <= k < rev@.len() ==> #[trigger] rev@[k]@ == es[n - 1 - k],
            sorted_first_upto(entries_model(r@), es, i as int),
        decreases n - i,
    {
        let e = rev.pop().unwrap();
        add_first_of_path(&mut r, e, Ghost(es), Ghost(i as int));
        i = i + 1;
    }
    r
}


// --------------------------------------------------------------- the repo

/// Where the contents of one side of a file come from.
#[derive(Debug)]
pub enum BlobSource {
    /// The file does not exist on this side.
    Absent,
    /// `git show <object>`.
    Show(String),
    /// The file at this repository-relative path in the working tree.
    Worktree(String),
}

/// A `BlobSource` as mathematical values.
pub enum SourceModel {
    Absent,
    Show(Seq<char>),
    Worktree(Seq<char>),
}

impl View for BlobSource {
    type V = SourceModel;

    open spec fn view(&self) -> SourceModel {
        match self {
            BlobSource::Absent => SourceModel::Absent,
            BlobSource::Show(o) => SourceModel::Show(o@),
            BlobSource::Worktree(p) => SourceModel::Worktree(p@),
        }
    }
}

/// A git repository, known by its top-level directory.
#[derive(Debug, Clone)]
pub struct Repo {
    root: String,
}

/// The label of the branch HEAD is on, from `git rev-parse --abbrev-ref
/// HEAD` (`branch`), else the short commit id (`short`), else a note that
/// there are no commits. Both outputs are trimmed; a detached HEAD reads as
/// `HEAD` and falls through to the commit id.
pub open spec fn head_label_spec(branch: Option<Seq<char>>, short: Option<Seq<char>>) -> Seq<char> {
    let b = match branch {
        Some(s) => trim_spec(s),
        None => Seq::empty(),
    };
    if b.len() == 0 || b == "HEAD"@ {
        match short {
            Some(s) => trim_spec(s),
            None => "(no commits)"@,
        }
    } else {
        b
    }
}

/// The count of a revision spelled `HEAD~N`, the shape of gd's own
/// commit-count shorthand.
pub open spec fn head_back_count(rev: Seq<char>) -> Option<usize> {
    if starts_with_spec(rev, "HEAD~"@) {
        parse_usize_spec(rev.skip(5))
    } else {
        None
    }
}

/// The error for a revision that names no commit. A `HEAD~N` revision also
/// gets how many commits the repository has.
pub open spec fn unknown_revision_spec(rev: Seq<char>, have: usize) -> Seq<char> {
    "unknown revision `"@ + rev + "`"@ + match head_back_count(rev) {
        Some(n) => "\n       this repository has "@ + decimal_spec(have as nat) + " commit"@
            + (if have == 1 { Seq::<char>::empty() } else { "s"@ })
            + ", so there is nothing "@ + decimal_spec(n as nat) + " back"@,
        None => Seq::empty(),
    }
}

/// Index of the first revision that does not resolve.
pub open spec fn first_unresolved(ok: Seq<bool>, i: int) -> int
    decreases ok.len() - i,
{
    if i < 0 || i >= ok.len() {
        ok.len() as int
    } else if !ok[i] {
        i
    } else {
        first_unresolved(ok, i + 1)
    }
}

/// The commit count `git rev-list --count HEAD` printed, or 0 when it failed
/// or printed something else.
pub open spec fn commit_count_spec(output: Option<Seq<char>>) -> usize {
    match output {
        Some(s) => match parse_usize_spec(trim_spec(s)) {
            Some(n) => n,
            None => 0,
        },
        None => 0,
    }
}

/// Every entry `changed_files` lists before sorting: the name-status
/// records, then each untracked path when the right side is the working
/// tree; or the error that stops it.
pub open spec fn listed_files_spec(spec: SpecModel, diff: Result<Seq<char>, Seq<char>>, has_head: Option<bool>, untracked: Result<Seq<char>, Seq<char>>) -> Result<Seq<EntryModel>, Seq<char>> {
    let raw: Result<Seq<char>, Seq<char>> = match diff {
        Ok(s) => Ok(s),
        Err(e) => if has_head == Some(false) && right_is_worktree_spec(spec) {
            Ok(Seq::empty())
        } else {
            Err(e)
        },
    };
    match raw {
        Err(e) => Err(e),
        Ok(s) => {
            let records = records_spec(nonempty_fields(s, '\0'));
            if right_is_worktree_spec(spec) {
                match untracked {
                    Ok(u) => {
                        let paths = nonempty_fields(u, '\0');
                        Ok(records + Seq::new(paths.len(), |i: int| entry_model(paths[i], paths[i], Status::Untracked)))
                    },
                    Err(e) => Err(e),
                }
            } else {
                Ok(records)
            }
        },
    }
}

pub open spec fn old_blob_spec(spec: SpecModel, file: EntryModel) -> SourceModel {
    if file.status == Status::Added || file.status == Status::Untracked {
        SourceModel::Absent
    } else {
        SourceModel::Show(old_label_spec(spec) + ":"@ + file.old_path)
    }
}

pub open spec fn new_blob_spec(spec: SpecModel, file: EntryModel) -> SourceModel {
    if file.status == Status::Deleted {
        SourceModel::Absent
    } else {
        match spec {
            SpecModel::Worktree | SpecModel::Rev(_) => SourceModel::Worktree(file.path),
            SpecModel::Staged => SourceModel::Show(":"@ + file.path),
            SpecModel::Range(_, b) => SourceModel::Show(b + ":"@ + file.path),
        }
    }
}

/// The right pane reads what the comparison puts on the right: the working
/// tree exactly when the right side is the working tree (a revision, or
/// nothing, against it), otherwise the index (`:path`) or the later
/// revision of a range; a deleted file has nothing on the right. The left
/// pane reads the revision named in its title, and of a changed file the
/// two panes never read the same thing when the right side is the working
/// tree.
pub proof fn each_pane_reads_its_own_side(spec: SpecModel, file: EntryModel)
    ensures
        file.status == Status::Deleted ==> new_blob_spec(spec, file) == SourceModel::Absent,
        file.status != Status::Deleted ==> (new_blob_spec(spec, file) == SourceModel::Worktree(file.path)
            <==> right_is_worktree_spec(spec)),
        file.status != Status::Deleted && spec is Staged ==> new_blob_spec(spec, file) == SourceModel::Show(
            ":"@ + file.path,
        ),
        file.status != Status::Deleted && spec is Range ==> new_blob_spec(spec, file) == SourceModel::Show(
            spec->Range_1 + ":"@ + file.path,
        ),
        file.status != Status::Added && file.status != Status::Untracked ==> old_blob_spec(spec, file)
            == SourceModel::Show(old_label_spec(spec) + ":"@ + file.old_path),
        right_is_worktree_spec(spec) && file.status == Status::Modified ==> old_blob_spec(spec, file) != new_blob_spec(
            spec,
            file,
        ),
{
}

impl Repo {
    /// The repository's top-level directory.
    pub closed spec fn root_path(&self) -> Seq<char> {
        self.root@
    }

    /// The repository whose top level `git rev-parse --show-toplevel`
    /// printed, when it succeeded; otherwise the error for a directory
    /// outside any repository.
    pub fn discover(success: bool, stdout: &str) -> (r: Result<Repo, String>)
        ensures
            success ==> (r matches Ok(repo) && repo.root_path() == trim_spec(stdout@)),
            !success ==> (r matches Err(m) && m@ == "not inside a git repository"@),
    {
        if !success {
            return Err(owned("not inside a git repository"));
        }
        Ok(Repo { root: owned(trim(stdout)) })
    }

    pub fn root(&self) -> (r: &str)
        ensures
            r@ == self.root_path(),
    {
        self.root.as_str()
    }

    /// Short description of where HEAD is, for the status line, from what
    /// `git rev-parse --abbrev-ref HEAD` and `git rev-parse --short HEAD`
    /// printed (`None` where the command failed).
    pub fn head_label(&self, branch: Option<&str>, short: Option<&str>) -> (r: String)
        ensures
            r@ == head_label_spec(
                match branch {
                    Some(b) => Some(b@),
                    None => None,
                },
                match short {
                    Some(s) => Some(s@),
                    None => None,
                },
            ),
    {
        let b: &str = match branch {
            Some(s) => trim(s),
            None => {
                proof {
                    reveal_strlit("");
                }
                ""
            },
        };
        if b.is_empty() || str_eq(b, "HEAD") {
            match short {
                Some(s) => owned(trim(s)),
                None => owned("(no commits)"),
            }
        } else {
            owned(b)
        }
    }

    /// Reject unusable revisions before the TUI takes over the terminal,
    /// where a raw git error would be painted over by the first frame.
    ///
    /// `resolves[i]` says whether revision `i` of `spec` names a commit, and
    /// `have` is how many commits the repository has.
    pub fn verify(&self, spec: &Spec, resolves: &Vec<bool>, have: usize) -> (r: Result<(), String>)
        requires
            resolves@.len() == revisions_spec(spec@).len(),
        ensures
            first_unresolved(resolves@, 0) == resolves@.len() ==> r is Ok,
            first_unresolved(resolves@, 0) < resolves@.len() ==> (r matches Err(m) && m@ == unknown_revision_spec(
                revisions_spec(spec@)[first_unresolved(resolves@, 0)],
                have,
            )),
    {
        let revs = spec.revisions();
        let mut i: usize = 0;
        while i < revs.len()
            invariant
                strs_model(revs@) == revisions_spec(spec@),
                resolves@.len() == revs@.len(),
                i <= revs.len(),
                first_unresolved(resolves@, i as int) == first_unresolved(resolves@, 0),
            decreases revs.len() - i,
        {
            if !resolves[i] {
                let rev = revs[i];
                return Err(Self::unknown_revision(rev, have));
            }
            i = i + 1;
        }
        Ok(())
    }

    /// The message for a revision that names no commit.
    pub fn unknown_revision(rev: &str, have: usize) -> (r: String)
        ensures
            r@ == unknown_revision_spec(rev@, have),
    {
        let mut out: Vec<char> = Vec::new();
        push_str(&mut out, "unknown revision `");
        push_str(&mut out, rev);
        push_str(&mut out, "`");
        // `HEAD~N` nearly always comes from gd's own commit-count
        // shorthand, so answer the question the user actually has.
        let ghost base = out@;
        match strip_prefix(rev, "HEAD~") {
            Some(rest) => {
                proof {
                    reveal_strlit("HEAD~");
                }
                match parse_usize(rest) {
                    Some(n) => {
                        push_str(&mut out, "\n       this repository has ");
                        push_decimal(&mut out, have);
                        push_str(&mut out, " commit");
                        if have != 1 {
                            push_str(&mut out, "s");
                        }
                        push_str(&mut out, ", so there is nothing ");
                        push_decimal(&mut out, n);
                        push_str(&mut out, " back");
                        proof {
                            let tail = "\n       this repository has "@ + decimal_spec(have as nat) + " commit"@
                                + (if have == 1 { Seq::<char>::empty() } else { "s"@ })
                                + ", so there is nothing "@ + decimal_spec(n as nat) + " back"@;
                            assert(out@ =~= base + tail);
                        }
                    },
                    None => {
                        proof {
                            assert(out@ =~= base + Seq::<char>::empty());
                        }
                    },
                }
            },
            None => {
                proof {
                    reveal_strlit("HEAD~");
                    assert(out@ =~= base + Seq::<char>::empty());
                }
            },
        }
        string_of(&out)
    }

    /// Commits reachable from HEAD, from what `git rev-list --count HEAD`
    /// printed (`None` where it failed); 0 in a repository with no commits.
    pub fn commit_count(&self, output: Option<&str>) -> (r: usize)
        ensures
            r == commit_count_spec(
                match output {
                    Some(s) => Some(s@),
                    None => None,
                },
            ),
    {
        match output {
            Some(s) => match parse_usize(trim(s)) {
                Some(n) => n,
                None => 0,
            },
            None => 0,
        }
    }

    /// Every file that differs between the two sides of `spec`, sorted by
    /// path, from what git reported: `diff` is the output of
    /// `git diff --name-status --find-renames -z` (or its error), `has_head`
    /// whether `HEAD` exists (asked only when the diff failed), and
    /// `untracked` the output of `git ls-files --others --exclude-standard
    /// -z` (or its error), read only when the right side is the working tree.
    pub fn changed_files(
        &self,
        spec: &Spec,
        diff: Result<&str, &str>,
        has_head: Option<bool>,
        untracked: Result<&str, &str>,
    ) -> (r: Result<Vec<FileEntry>, String>)
        ensures
            ({
                let listed = listed_files_spec(
                    spec@,
                    match diff {
                        Ok(s) => Ok(s@),
                        Err(e) => Err(e@),
                    },
                    has_head,
                    match untracked {
                        Ok(s) => Ok(s@),
                        Err(e) => Err(e@),
                    },
                );
                match r {
                    Ok(files) => listed matches Ok(es) && sorted_first_by_path(entries_model(files@), es),
                    Err(m) => listed matches Err(e) && m@ == e,
                }
            }),
    {
        // An empty repository has no HEAD to diff against; treat every
        // untracked file as an addition instead of failing outright.
        let raw: &str = match diff {
            Ok(s) => s,
            Err(e) => {
                if has_head == Some(false) && spec.right_is_worktree() {
                    proof {
                        reveal_strlit("");
                    }
                    ""
                } else {
                    return Err(owned(e));
                }
            },
        };
        let mut files = parse_name_status(raw);
        let ghost records = entries_model(files@);
        if spec.right_is_worktree() {
            match untracked {
                Ok(u) => {
                    let paths = nonempty_split(u, '\0');
                    let ghost ps = nonempty_fields(u@, '\0');
                    let mut i: usize = 0;
                    while i < paths.len()
                        invariant
                            strings_of(paths@) == ps,
                            i <= paths.len(),
                            entries_model(files@) == records + Seq::new(i as nat, |k: int| entry_model(ps[k], ps[k], Status::Untracked)),
                        decreases paths.len() - i,
                    {
                        let path = paths[i].clone();
                        assert(ps[i as int] == paths@[i as int]@);
                        let ghost prev = entries_model(files@);
                        files.push(FileEntry { old_path: path.clone(), path, status: Status::Untracked });
                        proof {
                            assert(entries_model(files@) =~= prev.push(entry_model(ps[i as int], ps[i as int], Status::Untracked)));
                            assert(entries_model(files@) =~= records + Seq::new((i + 1) as nat, |k: int| entry_model(ps[k], ps[k], Status::Untracked)));
                        }
                        i = i + 1;
                    }
                },
                Err(e) => {
                    return Err(owned(e));
                },
            }
        }
        Ok(sort_dedup_by_path(files))
    }

    /// Where the contents of the left pane for `file` come from.
    pub fn old_blob(&self, spec: &Spec, file: &FileEntry) -> (r: BlobSource)
        ensures
            r@ == old_blob_spec(spec@, file@),
    {
        if file.status == Status::Added || file.status == Status::Untracked {
            return BlobSource::Absent;
        }
        let rev = spec.old_label();
        let mut out: Vec<char> = Vec::new();
        push_str(&mut out, rev.as_str());
        push_str(&mut out, ":");
        push_str(&mut out, file.old_path.as_str());
        proof {
            assert(out@ =~= old_label_spec(spec@) + ":"@ + file.old_path@);
        }
        BlobSource::Show(string_of(&out))
    }

    /// Where the contents of the right pane for `file` come from.
    pub fn new_blob(&self, spec: &Spec, file: &FileEntry) -> (r: BlobSource)
        ensures
            r@ == new_blob_spec(spec@, file@),
    {
        if file.status == Status::Deleted {
            return BlobSource::Absent;
        }
        match spec {
            // Untracked files have no index entry yet, so always read on-disk.
            Spec::Worktree | Spec::Rev(_) => BlobSource::Worktree(file.path.clone()),
            Spec::Staged => {
                let mut out: Vec<char> = Vec::new();
                push_str(&mut out, ":");
                push_str(&mut out, file.path.as_str());
                proof {
                    assert(out@ =~= ":"@ + file.path@);
                }
                BlobSource::Show(string_of(&out))
            },
            Spec::Range(_, b) => {
                let mut out: Vec<char> = Vec::new();
                push_str(&mut out, b.as_str());
                push_str(&mut out, ":");
                push_str(&mut out, file.path.as_str());
                proof {
                    assert(out@ =~= b@ + ":"@ + file.path@);
                }
                BlobSource::Show(string_of(&out))
            },
        }
    }
}

} // verus!
