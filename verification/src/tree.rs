//! The changed-files tree in the left pane.
//!
//! Modelled on neo-tree: directories expand and collapse, indent guides show
//! nesting, and every row carries the git status of what it holds.
use vstd::prelude::*;
use crate::git::{entries_model, EntryModel, FileEntry, Status};
use crate::text::{
    contains, contains_spec, lemma_first_index_of, lemma_split_nonempty, split_char, split_spec, lemma_seq_lt_irreflexive, lemma_seq_lt_total,
    lemma_seq_lt_trans, lowercase_of, owned, push_str, seq_lt, split_once, split_once_spec,
    str_eq, str_less, string_of, to_lowercase,
};

verus! {

/// What a row of the tree stands for.
#[derive(Debug, Clone, Copy, PartialEq, Eq, Structural)]
pub enum NodeKind {
    Dir,
    /// Index into the file list the tree was built from.
    File(usize),
}

/// One rendered row of the tree.
#[derive(Debug)]
pub struct Node {
    pub depth: usize,
    /// Just the segment(s) shown on this row; grouped chains keep their slashes.
    pub name: String,
    /// Full repo-relative path, and the key used for expansion state.
    pub path: String,
    pub kind: NodeKind,
    pub expanded: bool,
    /// Whether this row is the last child of its parent, for indent guides.
    pub last_child: bool,
    /// For each ancestor level, whether that ancestor was its parent's last
    /// child -- which is what decides between a rail and blank space.
    pub guides: Vec<bool>,
    /// For directories: how many changed files live underneath.
    pub count: usize,
    pub status: Option<Status>,
}

/// A `Node` as mathematical values.
pub struct NodeModel {
    pub depth: nat,
    pub name: Seq<char>,
    pub path: Seq<char>,
    pub kind: NodeKind,
    pub expanded: bool,
    pub last_child: bool,
    pub guides: Seq<bool>,
    pub count: nat,
    pub status: Option<Status>,
}

impl View for Node {
    type V = NodeModel;

    open spec fn view(&self) -> NodeModel {
        NodeModel {
            depth: self.depth as nat,
            name: self.name@,
            path: self.path@,
            kind: self.kind,
            expanded: self.expanded,
            last_child: self.last_child,
            guides: self.guides@,
            count: self.count as nat,
            status: self.status,
        }
    }
}

impl Clone for Node {
    fn clone(&self) -> (r: Self)
        ensures
            r@ == self@,
    {
        Node {
            depth: self.depth,
            name: self.name.clone(),
            path: self.path.clone(),
            kind: self.kind,
            expanded: self.expanded,
            last_child: self.last_child,
            guides: self.guides.clone(),
            count: self.count,
            status: self.status,
        }
    }
}

impl Node {
    pub fn is_dir(&self) -> (r: bool)
        ensures
            r == (self.kind == NodeKind::Dir),
    {
        self.kind == NodeKind::Dir
    }
}

pub open spec fn nodes_model(v: Seq<Node>) -> Seq<NodeModel> {
    Seq::new(v.len(), |i: int| v[i]@)
}

pub open spec fn strings_model(v: Seq<String>) -> Seq<Seq<char>> {
    Seq::new(v.len(), |i: int| v[i]@)
}

/// One directory of the nested form, built fresh on every reload: its
/// subdirectories and files (file list indices), each sorted by name, and
/// how many changed files were recorded below it.
#[derive(Debug)]
pub struct Dir {
    pub subdirs: Vec<(String, Dir)>,
    pub files: Vec<(String, usize)>,
    pub count: usize,
}

impl Dir {
    pub fn empty() -> (r: Dir)
        ensures
            r.subdirs@.len() == 0,
            r.files@.len() == 0,
            r.count == 0,
    {
        Dir { subdirs: Vec::new(), files: Vec::new(), count: 0 }
    }
}

/// Names strictly increasing: the iteration order of a sorted map.
pub open spec fn names_sorted<T>(v: Seq<(String, T)>) -> bool {
    forall|i: int, j: int| 0 <= i < j < v.len() ==> seq_lt(#[trigger] v[i].0@, #[trigger] v[j].0@)
}

/// Well formed: names sorted at every level, and no subdirectory counts
/// more files than its parent.
pub open spec fn wf_dir(d: Dir) -> bool
    decreases d, 1int, 0int,
{
    &&& names_sorted(d.subdirs@)
    &&& names_sorted(d.files@)
    &&& subdirs_wf(d, d.subdirs@.len() as int)
}

pub open spec fn subdirs_wf(d: Dir, k: int) -> bool
    decreases d, 0int, k,
{
    if k <= 0 || k > d.subdirs@.len() {
        true
    } else {
        &&& subdirs_wf(d, k - 1)
        &&& wf_dir(d.subdirs@[k - 1].1)
        &&& d.subdirs@[k - 1].1.count <= d.count
    }
}

/// Directories nest at most `h` levels below `d`.
pub open spec fn bounded(d: Dir, h: int) -> bool
    decreases d, 1int, 0int,
{
    subdirs_bounded(d, h, d.subdirs@.len() as int)
}

pub open spec fn subdirs_bounded(d: Dir, h: int, k: int) -> bool
    decreases d, 0int, k,
{
    if k <= 0 || k > d.subdirs@.len() {
        true
    } else {
        &&& subdirs_bounded(d, h, k - 1)
        &&& h >= 1
        &&& bounded(d.subdirs@[k - 1].1, h - 1)
    }
}

proof fn lemma_subdirs_wf(d: Dir, k: int, i: int)
    requires
        subdirs_wf(d, k),
        0 <= i < k <= d.subdirs@.len(),
    ensures
        wf_dir(d.subdirs@[i].1),
        d.subdirs@[i].1.count <= d.count,
    decreases k,
{
    if i < k - 1 {
        lemma_subdirs_wf(d, k - 1, i);
    }
}

proof fn lemma_subdirs_bounded(d: Dir, h: int, k: int, i: int)
    requires
        subdirs_bounded(d, h, k),
        0 <= i < k <= d.subdirs@.len(),
    ensures
        h >= 1,
        bounded(d.subdirs@[i].1, h - 1),
    decreases k,
{
    if i < k - 1 {
        lemma_subdirs_bounded(d, h, k - 1, i);
    }
}

proof fn lemma_bounded_mono(d: Dir, h: int, h2: int)
    requires
        bounded(d, h),
        h <= h2,
    ensures
        bounded(d, h2),
    decreases d, 1int, 0int,
{
    lemma_subdirs_bounded_mono(d, h, h2, d.subdirs@.len() as int);
}

proof fn lemma_subdirs_bounded_mono(d: Dir, h: int, h2: int, k: int)
    requires
        subdirs_bounded(d, h, k),
        h <= h2,
        0 <= k <= d.subdirs@.len(),
    ensures
        subdirs_bounded(d, h2, k),
    decreases d, 0int, k,
{
    if k > 0 {
        lemma_subdirs_bounded_mono(d, h, h2, k - 1);
        lemma_subdirs_bounded(d, h, k, k - 1);
        lemma_bounded_mono(d.subdirs@[k - 1].1, h - 1, h2 - 1);
    }
}

pub open spec fn join_spec(prefix: Seq<char>, name: Seq<char>) -> Seq<char> {
    if prefix.len() == 0 {
        name
    } else {
        prefix + seq!['/'] + name
    }
}

/// Does anything under `d`, whose path is `prefix`, match the (already
/// lowercased) filter?
pub open spec fn dir_matches_spec(d: Dir, prefix: Seq<char>, filter: Seq<char>) -> bool
    decreases d, 1int, 0int,
{
    ||| contains_spec(lowercase_of(prefix), filter)
    ||| exists|j: int|
        0 <= j < d.files@.len() && contains_spec(lowercase_of(join_spec(prefix, #[trigger] d.files@[j].0@)), filter)
    ||| subdirs_match(d, prefix, filter, d.subdirs@.len() as int)
}

/// Some of the first `k` subdirectories of `d` match the filter.
pub open spec fn subdirs_match(d: Dir, prefix: Seq<char>, filter: Seq<char>, k: int) -> bool
    decreases d, 0int, k,
{
    if k <= 0 || k > d.subdirs@.len() {
        false
    } else {
        ||| subdirs_match(d, prefix, filter, k - 1)
        ||| dir_matches_spec(d.subdirs@[k - 1].1, join_spec(prefix, d.subdirs@[k - 1].0@), filter)
    }
}

proof fn lemma_subdirs_match_grows(d: Dir, prefix: Seq<char>, filter: Seq<char>, k1: int, k2: int)
    requires
        0 <= k1 <= k2 <= d.subdirs@.len(),
        subdirs_match(d, prefix, filter, k1),
    ensures
        subdirs_match(d, prefix, filter, k2),
    decreases k2 - k1,
{
    if k1 < k2 {
        lemma_subdirs_match_grows(d, prefix, filter, k1, k2 - 1);
    }
}

/// What a walk depends on besides the directories: the collapsed paths,
/// the lowercased filter, whether chains are grouped, and the file list
/// (for status badges).
pub struct WalkEnv {
    pub collapsed: Set<Seq<char>>,
    pub filter: Seq<char>,
    pub group: bool,
    pub files: Seq<EntryModel>,
}

/// The rows of directory `d`: its subdirectories (each followed by its own
/// rows when expanded), then its files.
pub open spec fn walk_spec(d: Dir, prefix: Seq<char>, depth: nat, guides: Seq<bool>, env: WalkEnv) -> Seq<NodeModel>
    decreases d, 3int, 0int,
{
    dirs_rows(d, prefix, depth, guides, env, d.subdirs@.len() as int) + files_rows(
        d,
        prefix,
        depth,
        guides,
        env,
        d.files@.len() as int,
    )
}

/// The rows of the first `k` subdirectories of `d`.
pub open spec fn dirs_rows(d: Dir, prefix: Seq<char>, depth: nat, guides: Seq<bool>, env: WalkEnv, k: int) -> Seq<NodeModel>
    decreases d, 2int, k,
{
    if k <= 0 || k > d.subdirs@.len() {
        Seq::empty()
    } else {
        dirs_rows(d, prefix, depth, guides, env, k - 1) + grouped_rows(
            d.subdirs@[k - 1].1,
            d.subdirs@[k - 1].0@,
            join_spec(prefix, d.subdirs@[k - 1].0@),
            depth,
            guides,
            k == d.subdirs@.len() + d.files@.len(),
            env,
        )
    }
}

/// The row of directory `g`, labelled `label` at `path`, and when it is
/// expanded the rows below it. With grouping on, a directory holding exactly
/// one subdirectory and no files folds into that subdirectory's row. A filter
/// hides directories with no match underneath.
pub open spec fn grouped_rows(
    g: Dir,
    label: Seq<char>,
    path: Seq<char>,
    depth: nat,
    guides: Seq<bool>,
    last_child: bool,
    env: WalkEnv,
) -> Seq<NodeModel>
    decreases g, 4int, 0int,
{
    if env.group && g.files@.len() == 0 && g.subdirs@.len() == 1 {
        let n = g.subdirs@[0].0@;
        grouped_rows(g.subdirs@[0].1, label + seq!['/'] + n, join_spec(path, n), depth, guides, last_child, env)
    } else if !(env.filter.len() == 0 || dir_matches_spec(g, path, env.filter)) {
        Seq::empty()
    } else {
        let expanded = !env.collapsed.contains(path);
        let row = NodeModel {
            depth,
            name: label,
            path,
            kind: NodeKind::Dir,
            expanded,
            last_child,
            guides,
            count: g.count as nat,
            status: None,
        };
        if expanded {
            seq![row] + walk_spec(g, path, depth + 1, guides.push(last_child), env)
        } else {
            seq![row]
        }
    }
}

/// The rows of the first `j` files of `d`.
pub open spec fn files_rows(d: Dir, prefix: Seq<char>, depth: nat, guides: Seq<bool>, env: WalkEnv, j: int) -> Seq<NodeModel>
    decreases j,
{
    if j <= 0 || j > d.files@.len() {
        Seq::empty()
    } else {
        files_rows(d, prefix, depth, guides, env, j - 1) + file_row(d, prefix, depth, guides, env, j - 1)
    }
}

/// The row of file `j` of `d`, unless the filter hides it.
pub open spec fn file_row(d: Dir, prefix: Seq<char>, depth: nat, guides: Seq<bool>, env: WalkEnv, j: int) -> Seq<NodeModel> {
    let name = d.files@[j].0@;
    let index = d.files@[j].1;
    let path = join_spec(prefix, name);
    if env.filter.len() != 0 && !contains_spec(lowercase_of(path), env.filter) {
        Seq::empty()
    } else {
        seq![NodeModel {
            depth,
            name,
            path,
            kind: NodeKind::File(index),
            expanded: false,
            last_child: j + 1 == d.files@.len(),
            guides,
            count: 0,
            status: if index < env.files.len() { Some(env.files[index as int].status) } else { None },
        }]
    }
}

pub open spec fn env_of(collapsed: Seq<String>, filter: Seq<char>, group: bool, files: Seq<FileEntry>) -> WalkEnv {
    WalkEnv { collapsed: strings_model(collapsed).to_set(), filter, group, files: entries_model(files) }
}

// ------------------------------------------------------------ exec helpers

pub fn join(prefix: &str, name: &str) -> (r: String)
    ensures
        r@ == join_spec(prefix@, name@),
{
    if prefix.is_empty() {
        owned(name)
    } else {
        let mut out: Vec<char> = Vec::new();
        push_str(&mut out, prefix);
        out.push('/');
        push_str(&mut out, name);
        proof {
            assert(out@ =~= prefix@ + seq!['/'] + name@);
        }
        string_of(&out)
    }
}

/// `v` holds `p`.
fn holds_path(v: &Vec<String>, p: &str) -> (r: bool)
    ensures
        r == strings_model(v@).contains(p@),
{
    let mut i: usize = 0;
    while i < v.len()
        invariant
            i <= v.len(),
            forall|k: int| 0 <= k < i ==> v@[k]@ != p@,
        decreases v.len() - i,
    {
        if str_eq(v[i].as_str(), p) {
            proof {
                assert(strings_model(v@)[i as int] == p@);
            }
            return true;
        }
        i = i + 1;
    }
    proof {
        if strings_model(v@).contains(p@) {
            let k = choose|k: int| 0 <= k < strings_model(v@).len() && strings_model(v@)[k] == p@;
            assert(v@[k]@ == p@);
        }
    }
    false
}

/// Does anything under `d` match the filter?
pub fn dir_matches(d: &Dir, prefix: &str, filter: &str) -> (r: bool)
    ensures
        r == dir_matches_spec(*d, prefix@, filter@),
    decreases d,
{
    let low = to_lowercase(prefix);
    if contains(low.as_str(), filter) {
        return true;
    }
    let mut j: usize = 0;
    while j < d.files.len()
        invariant
            j <= d.files@.len(),
            forall|t: int|
                0 <= t < j ==> !contains_spec(lowercase_of(join_spec(prefix@, #[trigger] d.files@[t].0@)), filter@),
        decreases d.files@.len() - j,
    {
        let p = join(prefix, d.files[j].0.as_str());
        let pl = to_lowercase(p.as_str());
        if contains(pl.as_str(), filter) {
            assert(contains_spec(lowercase_of(join_spec(prefix@, d.files@[j as int].0@)), filter@));
            return true;
        }
        j = j + 1;
    }
    let mut k: usize = 0;
    while k < d.subdirs.len()
        invariant
            k <= d.subdirs@.len(),
            !subdirs_match(*d, prefix@, filter@, k as int),
        decreases d.subdirs@.len() - k,
    {
        let p = join(prefix, d.subdirs[k].0.as_str());
        if dir_matches(&d.subdirs[k].1, p.as_str(), filter) {
            proof {
                lemma_subdirs_match_grows(*d, prefix@, filter@, k + 1, d.subdirs@.len() as int);
            }
            return true;
        }
        k = k + 1;
    }
    false
}

fn copy_guides(g: &Vec<bool>) -> (r: Vec<bool>)
    ensures
        r@ == g@,
{
    let mut r: Vec<bool> = Vec::new();
    let mut i: usize = 0;
    while i < g.len()
        invariant
            i <= g.len(),
            r@ == g@.take(i as int),
        decreases g.len() - i,
    {
        r.push(g[i]);
        proof {
            assert(g@.take(i + 1) =~= g@.take(i as int).push(g@[i as int]));
        }
        i = i + 1;
    }
    proof {
        assert(g@.take(i as int) =~= g@);
    }
    r
}

/// Flatten `d` into display rows, appended to `out`; each file row shows
/// the status its entry of `files` has.
pub fn walk(
    d: &Dir,
    prefix: &str,
    depth: usize,
    guides: &Vec<bool>,
    collapsed: &Vec<String>,
    filter: &str,
    group_dirs: bool,
    files: &[FileEntry],
    out: &mut Vec<Node>,
)
    requires
        bounded(*d, usize::MAX - depth),
    ensures
        nodes_model(final(out)@) == nodes_model(old(out)@) + walk_spec(
            *d,
            prefix@,
            depth as nat,
            guides@,
            env_of(collapsed@, filter@, group_dirs, files@),
        ),
    decreases d, 3int, 0int,
{
    let ghost env = env_of(collapsed@, filter@, group_dirs, files@);
    let ghost base = nodes_model(out@);
    let mut k: usize = 0;
    while k < d.subdirs.len()
        invariant
            bounded(*d, usize::MAX - depth),
            k <= d.subdirs@.len(),
            env == env_of(collapsed@, filter@, group_dirs, files@),
            nodes_model(out@) == base + dirs_rows(*d, prefix@, depth as nat, guides@, env, k as int),
        decreases d.subdirs@.len() - k,
    {
        proof {
            lemma_subdirs_bounded(*d, usize::MAX - depth, d.subdirs@.len() as int, k as int);
        }
        let name = &d.subdirs[k].0;
        let last_child = k + 1 == d.subdirs.len() && d.files.len() == 0;
        let label = owned(name.as_str());
        let path = join(prefix, name.as_str());
        grouped(&d.subdirs[k].1, label, path, depth, guides, last_child, collapsed, filter, group_dirs, files, out);
        k = k + 1;
    }
    let ghost mid = nodes_model(out@);
    let mut j: usize = 0;
    while j < d.files.len()
        invariant
            j <= d.files@.len(),
            env == env_of(collapsed@, filter@, group_dirs, files@),
            nodes_model(out@) == mid + files_rows(*d, prefix@, depth as nat, guides@, env, j as int),
        decreases d.files@.len() - j,
    {
        let ghost before = nodes_model(out@);
        let name = &d.files[j].0;
        let index = d.files[j].1;
        let path = join(prefix, name.as_str());
        let shown = if filter.is_empty() {
            true
        } else {
            let low = to_lowercase(path.as_str());
            contains(low.as_str(), filter)
        };
        if shown {
            let status = if index < files.len() {
                Some(files[index].status)
            } else {
                None
            };
            let row = Node {
                depth,
                name: owned(name.as_str()),
                path,
                kind: NodeKind::File(index),
                expanded: false,
                last_child: j + 1 == d.files.len(),
                guides: copy_guides(guides),
                count: 0,
                status,
            };
            let ghost rm = row@;
            out.push(row);
            proof {
                assert(file_row(*d, prefix@, depth as nat, guides@, env, j as int) =~= seq![rm]);
                assert(nodes_model(out@) =~= before + seq![rm]);
            }
        } else {
            proof {
                assert(file_row(*d, prefix@, depth as nat, guides@, env, j as int) =~= Seq::<NodeModel>::empty());
                assert(nodes_model(out@) =~= before + Seq::<NodeModel>::empty());
            }
        }
        j = j + 1;
    }
    proof {
        assert(nodes_model(out@) =~= base + walk_spec(*d, prefix@, depth as nat, guides@, env));
    }
}

/// The row of directory `g` (labelled `label`, at `path`) and the rows
/// below it; see `grouped_rows`.
fn grouped(
    g: &Dir,
    label: String,
    path: String,
    depth: usize,
    guides: &Vec<bool>,
    last_child: bool,
    collapsed: &Vec<String>,
    filter: &str,
    group_dirs: bool,
    files: &[FileEntry],
    out: &mut Vec<Node>,
)
    requires
        depth < usize::MAX,
        bounded(*g, usize::MAX - depth - 1),
    ensures
        nodes_model(final(out)@) == nodes_model(old(out)@) + grouped_rows(
            *g,
            label@,
            path@,
            depth as nat,
            guides@,
            last_child,
            env_of(collapsed@, filter@, group_dirs, files@),
        ),
    decreases g, 4int, 0int,
{
    let ghost env = env_of(collapsed@, filter@, group_dirs, files@);
    let ghost before = nodes_model(out@);
    if group_dirs && g.files.len() == 0 && g.subdirs.len() == 1 {
        proof {
            lemma_subdirs_bounded(*g, usize::MAX - depth - 1, 1, 0);
            lemma_bounded_mono(g.subdirs@[0].1, usize::MAX - depth - 2, usize::MAX - depth - 1);
        }
        let child_name = &g.subdirs[0].0;
        let mut l: Vec<char> = Vec::new();
        push_str(&mut l, label.as_str());
        l.push('/');
        push_str(&mut l, child_name.as_str());
        proof {
            assert(l@ =~= label@ + seq!['/'] + child_name@);
        }
        let next_path = join(path.as_str(), child_name.as_str());
        grouped(&g.subdirs[0].1, string_of(&l), next_path, depth, guides, last_child, collapsed, filter, group_dirs, files, out);
        return;
    }
    let matches_below = filter.is_empty() || dir_matches(g, path.as_str(), filter);
    if !matches_below {
        proof {
            assert(nodes_model(out@) =~= before + Seq::<NodeModel>::empty());
        }
        return;
    }
    let expanded = !holds_path(collapsed, path.as_str());
    let row = Node {
        depth,
        name: label,
        path: owned(path.as_str()),
        kind: NodeKind::Dir,
        expanded,
        last_child,
        guides: copy_guides(guides),
        count: g.count,
        status: None,
    };
    let ghost rm = row@;
    out.push(row);
    proof {
        assert(nodes_model(out@) =~= before.push(rm));
    }
    if expanded {
        let mut nested = copy_guides(guides);
        nested.push(last_child);
        walk(g, path.as_str(), depth + 1, &nested, collapsed, filter, group_dirs, files, out);
        proof {
            assert(nodes_model(out@) =~= before + (seq![rm] + walk_spec(*g, path@, (depth + 1) as nat, guides@.push(last_child), env)));
        }
    } else {
        proof {
            assert(nodes_model(out@) =~= before + seq![rm]);
        }
    }
}

// --------------------------------------------------------------- building

/// The value stored under `name` in a list of named entries, if any.
pub open spec fn lookup<T>(v: Seq<(String, T)>, name: Seq<char>) -> Option<T> {
    let k = choose|k: int| 0 <= k < v.len() && (#[trigger] v[k]).0@ == name;
    if 0 <= k < v.len() && v[k].0@ == name {
        Some(v[k].1)
    } else {
        None
    }
}

/// The file index stored under the relative path `p` below `d`: each
/// `/`-separated segment but the last names a subdirectory.
pub open spec fn file_at(d: Dir, p: Seq<char>) -> Option<usize>
    decreases p.len(),
{
    match split_once_spec(p, '/') {
        Some((head, tail)) => if tail.len() < p.len() {
            match lookup(d.subdirs@, head) {
                Some(c) => file_at(c, tail),
                None => None,
            }
        } else {
            None
        },
        None => lookup(d.files@, p),
    }
}

/// The number of files recorded below the directory at the relative path
/// `q`, whose `/`-separated segments name nested subdirectories; `None`
/// where there is no such directory.
pub open spec fn dir_count_at(d: Dir, q: Seq<char>) -> Option<nat>
    decreases q.len(),
{
    match split_once_spec(q, '/') {
        Some((head, tail)) => if tail.len() < q.len() {
            match lookup(d.subdirs@, head) {
                Some(c) => dir_count_at(c, tail),
                None => None,
            }
        } else {
            None
        },
        None => match lookup(d.subdirs@, q) {
            Some(c) => Some(c.count as nat),
            None => None,
        },
    }
}

/// `path` starts with the directory path `dir` and a `/`.
pub open spec fn below(dir: Seq<char>, path: Seq<char>) -> bool {
    &&& dir.len() < path.len()
    &&& path.take(dir.len() as int) == dir
    &&& path[dir.len() as int] == '/'
}

/// A directory count after one more file was recorded, below it or not.
pub open spec fn bumped(o: Option<nat>, b: bool) -> Option<nat> {
    if b {
        match o {
            Some(n) => Some(n + 1),
            None => Some(1),
        }
    } else {
        o
    }
}

/// Two `/`-free segments that each start the same text followed by a `/`
/// are the same segment.
proof fn lemma_same_segment(a: Seq<char>, b: Seq<char>, p: Seq<char>)
    requires
        forall|i: int| 0 <= i < a.len() ==> a[i] != '/',
        forall|i: int| 0 <= i < b.len() ==> b[i] != '/',
        below(a, p),
        below(b, p),
    ensures
        a == b,
{
    if a.len() < b.len() {
        assert(p.take(b.len() as int)[a.len() as int] == p[a.len() as int]);
        assert(false);
    } else if b.len() < a.len() {
        assert(p.take(a.len() as int)[b.len() as int] == p[b.len() as int]);
        assert(false);
    }
    assert forall|i: int| 0 <= i < a.len() implies a[i] == b[i] by {
        assert(p.take(a.len() as int)[i] == p[i]);
        assert(p.take(b.len() as int)[i] == p[i]);
    }
    assert(a =~= b);
}

/// Whether a path lies below a directory, one segment at a time.
proof fn lemma_below_path(q: Seq<char>, path: Seq<char>)
    ensures
        split_once_spec(path, '/') is None ==> !below(q, path),
        split_once_spec(path, '/') matches Some((head, tail)) ==> {
            &&& split_once_spec(q, '/') is None ==> (below(q, path) <==> q == head)
            &&& split_once_spec(q, '/') matches Some((h2, t2)) ==> (below(q, path) <==> (h2 == head && below(t2, tail)))
        },
{
    lemma_split_once_parts(path);
    lemma_split_once_parts(q);
    if let Some((head, tail)) = split_once_spec(path, '/') {
        assert(below(head, path)) by {
            assert(path.take(head.len() as int) =~= head);
        }
        if let Some((h2, t2)) = split_once_spec(q, '/') {
            if below(q, path) {
                assert(below(h2, path)) by {
                    assert(q[h2.len() as int] == '/');
                    assert(path.take(q.len() as int)[h2.len() as int] == path[h2.len() as int]);
                    assert forall|i: int| 0 <= i < h2.len() implies path.take(h2.len() as int)[i] == h2[i] by {
                        assert(path.take(q.len() as int)[i] == path[i]);
                        assert(q[i] == h2[i]);
                    }
                    assert(path.take(h2.len() as int) =~= h2);
                }
                lemma_same_segment(h2, head, path);
                assert(below(t2, tail)) by {
                    assert forall|i: int| 0 <= i < t2.len() implies tail.take(t2.len() as int)[i] == t2[i] by {
                        let j = head.len() + 1 + i;
                        assert(path.take(q.len() as int)[j] == path[j]);
                        assert(q[j] == t2[i]);
                        assert(path[j] == tail[i]);
                    }
                    assert(tail.take(t2.len() as int) =~= t2);
                    assert(path[q.len() as int] == tail[t2.len() as int]);
                }
            }
            if h2 == head && below(t2, tail) {
                assert forall|i: int| 0 <= i < q.len() implies path.take(q.len() as int)[i] == q[i] by {
                    if i > head.len() {
                        assert(tail.take(t2.len() as int)[i - head.len() - 1] == tail[i - head.len() - 1]);
                    }
                }
                assert(path.take(q.len() as int) =~= q);
            }
        } else {
            if below(q, path) {
                lemma_same_segment(q, head, path);
            }
        }
    } else {
        if below(q, path) {
            assert(path[q.len() as int] == '/');
        }
    }
}

proof fn lemma_dir_count_at_empty(d: Dir, q: Seq<char>)
    requires
        d.subdirs@.len() == 0,
    ensures
        dir_count_at(d, q) is None,
{
}

proof fn lemma_lookup_at<T>(v: Seq<(String, T)>, k: int)
    requires
        names_sorted(v),
        0 <= k < v.len(),
    ensures
        lookup(v, v[k].0@) == Some(v[k].1),
{
    let name = v[k].0@;
    assert forall|j: int| 0 <= j < v.len() && (#[trigger] v[j]).0@ == name implies j == k by {
        if j < k {
            assert(seq_lt(v[j].0@, v[k].0@));
            lemma_seq_lt_irreflexive(name);
        } else if k < j {
            assert(seq_lt(v[k].0@, v[j].0@));
            lemma_seq_lt_irreflexive(name);
        }
    }
    assert(v[k].0@ == name);
}

/// Putting an entry named `e.0` at `pos` (inserted, or replacing one of
/// that name) leaves every other name's lookup as it was.
proof fn lemma_lookup_other<T>(v: Seq<(String, T)>, w: Seq<(String, T)>, pos: int, e: (String, T), x: Seq<char>)
    requires
        names_sorted(v),
        names_sorted(w),
        0 <= pos <= v.len(),
        w == v.insert(pos, e) || (pos < v.len() && v[pos].0@ == e.0@ && w == v.update(pos, e)),
        x != e.0@,
    ensures
        lookup(w, x) == lookup(v, x),
{
    let inserted = w == v.insert(pos, e);
    if exists|k: int| 0 <= k < w.len() && (#[trigger] w[k]).0@ == x {
        let k = choose|k: int| 0 <= k < w.len() && (#[trigger] w[k]).0@ == x;
        lemma_lookup_at(w, k);
        let k0 = if inserted && k > pos { k - 1 } else { k };
        assert(k != pos);
        assert(w[k] == v[k0]);
        lemma_lookup_at(v, k0);
    } else {
        if exists|k: int| 0 <= k < v.len() && (#[trigger] v[k]).0@ == x {
            let k = choose|k: int| 0 <= k < v.len() && (#[trigger] v[k]).0@ == x;
            let k1 = if inserted && k >= pos { k + 1 } else { k };
            assert(w[k1] == v[k]);
        }
    }
}

proof fn lemma_split_once_parts(p: Seq<char>)
    ensures
        split_once_spec(p, '/') matches Some((h, t)) ==> (t.len() < p.len() && p == h + seq!['/'] + t),
        split_once_spec(p, '/') matches Some((h, t)) ==> forall|i: int| 0 <= i < h.len() ==> h[i] != '/',
        split_once_spec(p, '/') is None ==> forall|i: int| 0 <= i < p.len() ==> p[i] != '/',
{
    lemma_first_index_of(p, '/', 0);
    if let Some((h, t)) = split_once_spec(p, '/') {
        assert(p =~= h + seq!['/'] + t);
    }
}

proof fn lemma_file_at_empty(d: Dir, p: Seq<char>)
    requires
        d.subdirs@.len() == 0,
        d.files@.len() == 0,
    ensures
        file_at(d, p) is None,
{
}

proof fn lemma_subdirs_wf_all(d: Dir)
    requires
        forall|i: int| 0 <= i < d.subdirs@.len() ==> wf_dir(#[trigger] d.subdirs@[i].1) && d.subdirs@[i].1.count <= d.count,
    ensures
        subdirs_wf(d, d.subdirs@.len() as int),
{
    lemma_subdirs_wf_upto(d, d.subdirs@.len() as int);
}

proof fn lemma_subdirs_wf_upto(d: Dir, k: int)
    requires
        0 <= k <= d.subdirs@.len(),
        forall|i: int| 0 <= i < d.subdirs@.len() ==> wf_dir(#[trigger] d.subdirs@[i].1) && d.subdirs@[i].1.count <= d.count,
    ensures
        subdirs_wf(d, k),
    decreases k,
{
    if k > 0 {
        lemma_subdirs_wf_upto(d, k - 1);
    }
}

proof fn lemma_subdirs_bounded_upto(d: Dir, h: int, k: int)
    requires
        0 <= k <= d.subdirs@.len(),
        d.subdirs@.len() > 0 ==> h >= 1,
        forall|i: int| 0 <= i < d.subdirs@.len() ==> bounded(#[trigger] d.subdirs@[i].1, h - 1),
    ensures
        subdirs_bounded(d, h, k),
    decreases k,
{
    if k > 0 {
        lemma_subdirs_bounded_upto(d, h, k - 1);
    }
}

/// Where `name` goes in the sorted names `v`: the first position whose name
/// does not sort before it.
fn find_slot<T>(v: &Vec<(String, T)>, name: &str) -> (r: usize)
    ensures
        r <= v@.len(),
        forall|i: int| 0 <= i < r ==> seq_lt(#[trigger] v@[i].0@, name@),
        r < v@.len() ==> !seq_lt(v@[r as int].0@, name@),
{
    let mut i: usize = 0;
    while i < v.len() && str_less(v[i].0.as_str(), name)
        invariant
            i <= v@.len(),
            forall|k: int| 0 <= k < i ==> seq_lt(#[trigger] v@[k].0@, name@),
        decreases v@.len() - i,
    {
        i = i + 1;
    }
    i
}

/// Inserting an entry at its slot keeps the names sorted.
proof fn lemma_insert_sorted<T>(v: Seq<(String, T)>, pos: int, e: (String, T))
    requires
        names_sorted(v),
        0 <= pos <= v.len(),
        forall|i: int| 0 <= i < pos ==> seq_lt(#[trigger] v[i].0@, e.0@),
        pos < v.len() ==> seq_lt(e.0@, v[pos].0@),
    ensures
        names_sorted(v.insert(pos, e)),
{
    let w = v.insert(pos, e);
    assert forall|i: int, j: int| 0 <= i < j < w.len() implies seq_lt(#[trigger] w[i].0@, #[trigger] w[j].0@) by {
        if j < pos {
        } else if j == pos {
        } else if i < pos {
            lemma_seq_lt_trans(v[i].0@, e.0@, v[pos].0@);
            if j - 1 > pos {
                lemma_seq_lt_trans(v[i].0@, v[pos].0@, v[j - 1].0@);
            }
        } else if i == pos {
            if j - 1 > pos {
                lemma_seq_lt_trans(e.0@, v[pos].0@, v[j - 1].0@);
            }
        } else {
            assert(w[i] == v[i - 1]);
            assert(w[j] == v[j - 1]);
        }
    }
}

/// Replacing an entry by one of the same name keeps the names sorted.
proof fn lemma_update_sorted<T>(v: Seq<(String, T)>, pos: int, e: (String, T))
    requires
        names_sorted(v),
        0 <= pos < v.len(),
        v[pos].0@ == e.0@,
    ensures
        names_sorted(v.update(pos, e)),
{
    let w = v.update(pos, e);
    assert forall|i: int, j: int| 0 <= i < j < w.len() implies seq_lt(#[trigger] w[i].0@, #[trigger] w[j].0@) by {
        assert(w[i].0@ == v[i].0@);
        assert(w[j].0@ == v[j].0@);
    }
}

/// Record the file `path` (relative to `d`) under index `index`, creating
/// directories on the way and counting it in each of them. A path recorded
/// before gets the new index.
pub fn insert(d: &mut Dir, path: &str, index: usize)
    requires
        wf_dir(*old(d)),
        old(d).count < usize::MAX,
    ensures
        wf_dir(*final(d)),
        final(d).count == old(d).count + 1,
        file_at(*final(d), path@) == Some(index),
        forall|p: Seq<char>| p != path@ ==> #[trigger] file_at(*final(d), p) == file_at(*old(d), p),
        forall|h: int| bounded(*old(d), h) && path@.len() <= h ==> #[trigger] bounded(*final(d), h),
        forall|q: Seq<char>| #[trigger] dir_count_at(*final(d), q) == bumped(dir_count_at(*old(d), q), below(q, path@)),
    decreases path@.len(),
{
    let ghost d0 = *d;
    d.count = d.count + 1;
    proof {
        lemma_split_once_parts(path@);
    }
    match split_once(path, '/') {
        Some((head, tail)) => {
            let pos = find_slot(&d.subdirs, head);
            let ghost v = d.subdirs@;
            let found = pos < d.subdirs.len() && str_eq(d.subdirs[pos].0.as_str(), head);
            if found {
                proof {
                    lemma_subdirs_wf(d0, d0.subdirs@.len() as int, pos as int);
                }
                let (name, mut child) = d.subdirs.remove(pos);
                let ghost c0 = child;
                insert(&mut child, tail, index);
                let ghost c1 = child;
                d.subdirs.insert(pos, (name, child));
                proof {
                    assert(d.subdirs@ =~= v.update(pos as int, (name, c1)));
                    lemma_update_sorted(v, pos as int, (name, c1));
                    lemma_lookup_at(d.subdirs@, pos as int);
                    lemma_lookup_at(v, pos as int);
                    assert(c0 == v[pos as int].1);
                    assert forall|p: Seq<char>| p != path@ implies #[trigger] file_at(*d, p) == file_at(d0, p) by {
                        lemma_split_once_parts(p);
                        if let Some((h, t)) = split_once_spec(p, '/') {
                            if h == head@ {
                                assert(t != tail@);
                                assert(file_at(*d, p) == file_at(c1, t));
                                assert(file_at(d0, p) == file_at(c0, t));
                                assert(file_at(c1, t) == file_at(c0, t));
                            } else {
                                lemma_lookup_other(v, d.subdirs@, pos as int, (name, c1), h);
                                assert(file_at(*d, p) == file_at(d0, p));
                            }
                        }
                    }
                    assert forall|q: Seq<char>| #[trigger] dir_count_at(*d, q) == bumped(dir_count_at(d0, q), below(q, path@)) by {
                        lemma_split_once_parts(q);
                        lemma_below_path(q, path@);
                        if let Some((h, t)) = split_once_spec(q, '/') {
                            if h == head@ {
                                assert(dir_count_at(*d, q) == dir_count_at(c1, t));
                                assert(dir_count_at(d0, q) == dir_count_at(c0, t));
                            } else {
                                lemma_lookup_other(v, d.subdirs@, pos as int, (name, c1), h);
                            }
                        } else if q == head@ {
                            assert(dir_count_at(*d, q) == Some(c1.count as nat));
                            assert(dir_count_at(d0, q) == Some(c0.count as nat));
                        } else {
                            lemma_lookup_other(v, d.subdirs@, pos as int, (name, c1), q);
                        }
                    }
                }
            } else {
                let mut child = Dir::empty();
                let ghost c0 = child;
                proof {
                    assert(wf_dir(c0));
                }
                insert(&mut child, tail, index);
                let ghost c1 = child;
                let entry = (owned(head), child);
                proof {
                    if pos < v.len() {
                        lemma_seq_lt_total(v[pos as int].0@, head@);
                    }
                    lemma_insert_sorted(v, pos as int, entry);
                }
                d.subdirs.insert(pos, entry);
                proof {
                    lemma_lookup_at(d.subdirs@, pos as int);
                    assert(lookup(v, head@) is None) by {
                        if exists|k: int| 0 <= k < v.len() && (#[trigger] v[k]).0@ == head@ {
                            let k = choose|k: int| 0 <= k < v.len() && (#[trigger] v[k]).0@ == head@;
                            if k < pos {
                                lemma_seq_lt_irreflexive(head@);
                            } else if k > pos {
                                lemma_seq_lt_total(v[pos as int].0@, head@);
                                lemma_seq_lt_trans(head@, v[pos as int].0@, v[k].0@);
                                lemma_seq_lt_irreflexive(head@);
                            }
                        }
                    }
                    assert forall|p: Seq<char>| p != path@ implies #[trigger] file_at(*d, p) == file_at(d0, p) by {
                        lemma_split_once_parts(p);
                        if let Some((h, t)) = split_once_spec(p, '/') {
                            if h == head@ {
                                assert(t != tail@);
                                lemma_file_at_empty(c0, t);
                                assert(file_at(*d, p) == file_at(c1, t));
                                assert(file_at(d0, p) is None);
                            } else {
                                lemma_lookup_other(v, d.subdirs@, pos as int, entry, h);
                                assert(file_at(*d, p) == file_at(d0, p));
                            }
                        }
                    }
                    assert forall|q: Seq<char>| #[trigger] dir_count_at(*d, q) == bumped(dir_count_at(d0, q), below(q, path@)) by {
                        lemma_split_once_parts(q);
                        lemma_below_path(q, path@);
                        if let Some((h, t)) = split_once_spec(q, '/') {
                            if h == head@ {
                                lemma_dir_count_at_empty(c0, t);
                                assert(dir_count_at(*d, q) == dir_count_at(c1, t));
                                assert(dir_count_at(d0, q) is None);
                            } else {
                                lemma_lookup_other(v, d.subdirs@, pos as int, entry, h);
                            }
                        } else if q == head@ {
                            assert(dir_count_at(*d, q) == Some(c1.count as nat));
                            assert(dir_count_at(d0, q) is None);
                        } else {
                            lemma_lookup_other(v, d.subdirs@, pos as int, entry, q);
                        }
                    }
                }
            }
            proof {
                let w = d.subdirs@;
                assert forall|i: int| 0 <= i < w.len() implies wf_dir(#[trigger] w[i].1) && w[i].1.count <= d.count by {
                    if i != pos {
                        let i0 = if !found && i > pos { i - 1 } else { i };
                        assert(w[i] == v[i0]);
                        lemma_subdirs_wf(d0, v.len() as int, i0);
                    }
                }
                lemma_subdirs_wf_all(*d);
                assert forall|h: int| bounded(d0, h) && path@.len() <= h implies #[trigger] bounded(*d, h) by {
                    assert forall|i: int| 0 <= i < w.len() implies bounded(#[trigger] w[i].1, h - 1) by {
                        if i != pos {
                            let i0 = if !found && i > pos { i - 1 } else { i };
                            assert(w[i] == v[i0]);
                            lemma_subdirs_bounded(d0, h, v.len() as int, i0);
                        } else if found {
                            lemma_subdirs_bounded(d0, h, v.len() as int, pos as int);
                        }
                    }
                    lemma_subdirs_bounded_upto(*d, h, w.len() as int);
                }
            }
        },
        None => {
            let pos = find_slot(&d.files, path);
            let ghost v = d.files@;
            let entry = (owned(path), index);
            if pos < d.files.len() && str_eq(d.files[pos].0.as_str(), path) {
                proof {
                    lemma_update_sorted(v, pos as int, entry);
                }
                d.files.set(pos, entry);
            } else {
                proof {
                    if pos < v.len() {
                        lemma_seq_lt_total(v[pos as int].0@, path@);
                    }
                    lemma_insert_sorted(v, pos as int, entry);
                }
                d.files.insert(pos, entry);
            }
            proof {
                lemma_lookup_at(d.files@, pos as int);
                assert forall|p: Seq<char>| p != path@ implies #[trigger] file_at(*d, p) == file_at(d0, p) by {
                    lemma_split_once_parts(p);
                    if split_once_spec(p, '/') is None {
                        lemma_lookup_other(v, d.files@, pos as int, entry, p);
                    }
                }
                let w = d.subdirs@;
                assert(w == d0.subdirs@);
                assert forall|q: Seq<char>| #[trigger] dir_count_at(*d, q) == bumped(dir_count_at(d0, q), below(q, path@)) by {
                    lemma_below_path(q, path@);
                }
                assert forall|i: int| 0 <= i < w.len() implies wf_dir(#[trigger] w[i].1) && w[i].1.count <= d.count by {
                    lemma_subdirs_wf(d0, w.len() as int, i);
                }
                lemma_subdirs_wf_all(*d);
                assert forall|h: int| bounded(d0, h) && path@.len() <= h implies #[trigger] bounded(*d, h) by {
                    assert forall|i: int| 0 <= i < w.len() implies bounded(#[trigger] w[i].1, h - 1) by {
                        lemma_subdirs_bounded(d0, h, w.len() as int, i);
                    }
                    lemma_subdirs_bounded_upto(*d, h, w.len() as int);
                }
            }
        },
    }
}

// ------------------------------------------------------------------ the tree

/// The index each path was recorded under: that of its last entry in the
/// file list.
pub open spec fn last_index(files: Seq<EntryModel>, p: Seq<char>) -> Option<usize>
    decreases files.len(),
{
    if files.len() == 0 {
        None
    } else if files.last().path == p {
        Some((files.len() - 1) as usize)
    } else {
        last_index(files.drop_last(), p)
    }
}

/// How many entries of the file list lie below the directory `q`.
pub open spec fn count_below(files: Seq<EntryModel>, q: Seq<char>) -> nat
    decreases files.len(),
{
    if files.len() == 0 {
        0
    } else {
        count_below(files.drop_last(), q) + if below(q, files.last().path) {
            1nat
        } else {
            0nat
        }
    }
}

/// The directory `q` exists exactly where some entry lies below it, and
/// counts those entries.
pub open spec fn dir_count_spec(files: Seq<EntryModel>, q: Seq<char>) -> Option<nat> {
    if count_below(files, q) > 0 {
        Some(count_below(files, q))
    } else {
        None
    }
}

pub open spec fn no_dups(s: Seq<Seq<char>>) -> bool {
    forall|i: int, j: int| 0 <= i < j < s.len() ==> s[i] != s[j]
}

/// The selection after the rows change: kept when still in range, else the
/// last row (or 0 for no rows).
pub open spec fn clamp_selection(sel: usize, len: nat) -> usize {
    if sel < len {
        sel
    } else if len == 0 {
        0
    } else {
        (len - 1) as usize
    }
}

/// The first row whose path is `path`.
pub open spec fn first_with_path(rows: Seq<NodeModel>, path: Seq<char>) -> Option<int> {
    if exists|i: int| 0 <= i < rows.len() && (#[trigger] rows[i]).path == path {
        Some(choose|i: int| 0 <= i < rows.len() && (#[trigger] rows[i]).path == path && forall|j: int| 0 <= j < i ==> rows[j].path != path)
    } else {
        None
    }
}

/// Index of the last `/` in `p`, or -1.
pub open spec fn last_slash(p: Seq<char>, i: int) -> int
    decreases i,
{
    if i <= 0 {
        -1
    } else if p[i - 1] == '/' {
        i - 1
    } else {
        last_slash(p, i - 1)
    }
}

/// The directory part of `path`: everything before its last `/`.
pub open spec fn parent_of_spec(p: Seq<char>) -> Option<Seq<char>> {
    let k = last_slash(p, p.len() as int);
    if k >= 0 {
        Some(p.take(k))
    } else {
        None
    }
}

proof fn lemma_last_slash(p: Seq<char>, i: int)
    requires
        0 <= i <= p.len(),
    ensures
        -1 <= last_slash(p, i) < i,
        last_slash(p, i) >= 0 ==> p[last_slash(p, i)] == '/',
        forall|j: int| last_slash(p, i) < j < i ==> p[j] != '/',
    decreases i,
{
    if i > 0 && p[i - 1] != '/' {
        lemma_last_slash(p, i - 1);
    }
}

/// The directory part of `path`: everything before its last `/`.
pub fn parent_of(path: &str) -> (r: Option<&str>)
    ensures
        match r {
            Some(q) => parent_of_spec(path@) == Some(q@),
            None => parent_of_spec(path@) is None,
        },
{
    let n = path.unicode_len();
    let mut i: usize = n;
    while i > 0 && path.get_char(i - 1) != '/'
        invariant
            n == path@.len(),
            i <= n,
            last_slash(path@, i as int) == last_slash(path@, n as int),
        decreases i,
    {
        i = i - 1;
    }
    if i == 0 {
        None
    } else {
        let q = path.substring_char(0, i - 1);
        proof {
            assert(q@ =~= path@.take(i - 1));
        }
        Some(q)
    }
}

/// Collapsing state is a set of paths: toggling adds or removes one.
pub open spec fn toggled(s: Set<Seq<char>>, p: Seq<char>) -> Set<Seq<char>> {
    if s.contains(p) {
        s.remove(p)
    } else {
        s.insert(p)
    }
}

/// The paths of the directory rows.
pub open spec fn dir_paths(rows: Seq<NodeModel>) -> Set<Seq<char>> {
    Set::new(|p: Seq<char>| exists|i: int| 0 <= i < rows.len() && (#[trigger] rows[i]).kind == NodeKind::Dir && rows[i].path == p)
}

pub open spec fn dir_paths_upto(rows: Seq<NodeModel>, i: int) -> Set<Seq<char>> {
    Set::new(|p: Seq<char>| exists|j: int| 0 <= j < i && (#[trigger] rows[j]).kind == NodeKind::Dir && rows[j].path == p)
}

pub open spec fn has_dir_row(rows: Seq<NodeModel>) -> bool {
    exists|i: int| 0 <= i < rows.len() && (#[trigger] rows[i]).kind == NodeKind::Dir
}

pub open spec fn has_open_dir_row(rows: Seq<NodeModel>) -> bool {
    exists|i: int| 0 <= i < rows.len() && (#[trigger] rows[i]).kind == NodeKind::Dir && rows[i].expanded
}

/// The nearest row for `p`: the first row of `p` itself, else of its
/// nearest listed ancestor.
pub open spec fn settle(rows: Seq<NodeModel>, p: Seq<char>) -> Option<int>
    decreases p.len(),
{
    match first_with_path(rows, p) {
        Some(i) => Some(i),
        None => match parent_of_spec(p) {
            Some(q) => if q.len() < p.len() {
                settle(rows, q)
            } else {
                None
            },
            None => None,
        },
    }
}

/// One step of the cursor over `len` rows, wrapping at both ends: the row
/// after (or before) row `i % len`.
pub open spec fn step_from(i: int, len: int, forward: bool) -> int {
    let m = i % len;
    if forward {
        if m == len - 1 {
            0
        } else {
            m + 1
        }
    } else {
        if m == 0 {
            len - 1
        } else {
            m - 1
        }
    }
}

pub open spec fn step_pos(sel: int, len: int, forward: bool, t: nat) -> int
    decreases t,
{
    if t == 0 {
        sel
    } else {
        step_from(step_pos(sel, len, forward, (t - 1) as nat), len, forward)
    }
}

/// The first number of steps, from `t` up to one full round, that lands on
/// a file row.
pub open spec fn file_step(rows: Seq<NodeModel>, sel: int, forward: bool, t: nat) -> Option<nat>
    decreases rows.len() + 1 - t,
{
    if t > rows.len() || t == 0 {
        None
    } else if rows[step_pos(sel, rows.len() as int, forward, t)].kind is File {
        Some(t)
    } else {
        file_step(rows, sel, forward, t + 1)
    }
}

/// Adds `p` to the paths in `v` (a set: no path twice).
fn add_path(v: &mut Vec<String>, p: &str)
    requires
        no_dups(strings_model(old(v)@)),
    ensures
        no_dups(strings_model(final(v)@)),
        strings_model(final(v)@).to_set() == strings_model(old(v)@).to_set().insert(p@),
{
    if !holds_path(v, p) {
        let ghost s0 = strings_model(v@);
        v.push(owned(p));
        proof {
            assert(strings_model(v@) =~= s0.push(p@));
            assert forall|a: Seq<char>| strings_model(v@).to_set().contains(a) == s0.to_set().insert(p@).contains(a) by {
                if s0.contains(a) {
                    let k = choose|k: int| 0 <= k < s0.len() && s0[k] == a;
                    assert(strings_model(v@)[k] == a);
                }
                if a == p@ {
                    assert(strings_model(v@)[s0.len() as int] == a);
                }
                if strings_model(v@).contains(a) {
                    let k = choose|k: int| 0 <= k < strings_model(v@).len() && strings_model(v@)[k] == a;
                    if k < s0.len() {
                        assert(s0[k] == a);
                    }
                }
            }
            assert(strings_model(v@).to_set() =~= s0.to_set().insert(p@));
        }
    } else {
        proof {
            assert(strings_model(v@).to_set() =~= strings_model(v@).to_set().insert(p@));
        }
    }
}

/// Removes `p` from the paths in `v`; says whether it was there.
fn remove_path(v: &mut Vec<String>, p: &str) -> (r: bool)
    requires
        no_dups(strings_model(old(v)@)),
    ensures
        r == strings_model(old(v)@).contains(p@),
        no_dups(strings_model(final(v)@)),
        strings_model(final(v)@).to_set() == strings_model(old(v)@).to_set().remove(p@),
{
    let ghost s0 = strings_model(v@);
    let mut i: usize = 0;
    while i < v.len()
        invariant
            v@ == old(v)@,
            s0 == strings_model(v@),
            no_dups(s0),
            i <= v.len(),
            forall|k: int| 0 <= k < i ==> s0[k] != p@,
        decreases v.len() - i,
    {
        if str_eq(v[i].as_str(), p) {
            v.remove(i);
            proof {
                assert(s0[i as int] == p@);
                assert(strings_model(v@) =~= s0.remove(i as int));
                assert forall|a: Seq<char>| strings_model(v@).to_set().contains(a) == s0.to_set().remove(p@).contains(a) by {
                    if s0.contains(a) && a != p@ {
                        let k = choose|k: int| 0 <= k < s0.len() && s0[k] == a;
                        assert(k != i);
                        if k < i {
                            assert(strings_model(v@)[k] == a);
                        } else {
                            assert(strings_model(v@)[k - 1] == a);
                        }
                    }
                    if strings_model(v@).contains(a) {
                        let k = choose|k: int| 0 <= k < strings_model(v@).len() && strings_model(v@)[k] == a;
                        if k < i {
                            assert(s0[k] == a);
                        } else {
                            assert(s0[k + 1] == a);
                        }
                        assert(a != p@);
                    }
                }
                assert(strings_model(v@).to_set() =~= s0.to_set().remove(p@));
                assert(s0[i as int] == p@);
            }
            return true;
        }
        i = i + 1;
    }
    proof {
        assert(!s0.contains(p@));
        assert(s0.to_set() =~= s0.to_set().remove(p@));
    }
    false
}

pub struct Tree {
    root: Dir,
    collapsed: Vec<String>,
    /// Flattened rows in display order; rebuilt whenever the shape changes.
    pub nodes: Vec<Node>,
    pub selected: usize,
    /// Substring filter applied by the tree's own `/` finder.
    filter: String,
    /// Fold `a/b/c` into one row when each level has a single child.
    pub group_dirs: bool,
}

/// `post` is `pre` with the rows recomputed from `files` for the collapsed
/// paths `collapsed`, and the selection kept in range.
pub closed spec fn reflowed(pre: Tree, post: Tree, collapsed: Set<Seq<char>>, files: Seq<FileEntry>) -> bool {
    &&& post.wf()
    &&& post.root == pre.root
    &&& post.collapsed_paths() == collapsed
    &&& post.filter@ == pre.filter@
    &&& post.group_dirs == pre.group_dirs
    &&& nodes_model(post.nodes@) == post.rows(files)
    &&& post.selected == clamp_selection(pre.selected, post.nodes@.len())
}

/// `post` is `pre` with the cursor moved to the first row of `path`, when
/// there is one.
pub closed spec fn shallow_moved(pre: Tree, post: Tree, path: Seq<char>) -> bool {
    &&& post.nodes@ == pre.nodes@
    &&& post.root == pre.root
    &&& post.collapsed@ == pre.collapsed@
    &&& post.filter@ == pre.filter@
    &&& post.group_dirs == pre.group_dirs
    &&& post.selected == match first_with_path(nodes_model(pre.nodes@), path) {
        Some(i) => i as usize,
        None => pre.selected,
    }
}

/// neo-tree's `z`: every directory row of `pre` collapsed, the rows
/// recomputed, and the cursor on the old selection or, when that is hidden
/// now, its nearest visible ancestor.
pub closed spec fn all_closed(pre: Tree, post: Tree, files: Seq<FileEntry>) -> bool {
    let c = clamp_selection(pre.selected, post.nodes@.len());
    &&& post.wf()
    &&& post.root == pre.root
    &&& post.collapsed_paths() == pre.collapsed_paths().union(dir_paths(nodes_model(pre.nodes@)))
    &&& post.filter@ == pre.filter@
    &&& post.group_dirs == pre.group_dirs
    &&& nodes_model(post.nodes@) == post.rows(files)
    &&& post.selected == match pre.selected_row() {
        Some(n) => match settle(nodes_model(post.nodes@), n.path) {
            Some(i) => i as usize,
            None => c,
        },
        None => c,
    }
}

/// One key for both directions: with no directory row nothing happens
/// (`None`); with an open one everything closes (`Some(false)`); otherwise
/// everything opens (`Some(true)`).
pub open spec fn toggled_all(pre: Tree, post: Tree, files: Seq<FileEntry>, r: Option<bool>) -> bool {
    let rows = nodes_model(pre.node_list());
    if !has_dir_row(rows) {
        r is None && post == pre
    } else if has_open_dir_row(rows) {
        r == Some(false) && all_closed(pre, post, files)
    } else {
        r == Some(true) && reflowed(pre, post, Set::empty(), files)
    }
}

/// The paths of a path's leading segments, joined: `a`, `a/b`, ...
pub open spec fn joined(segs: Seq<Seq<char>>) -> Seq<char>
    decreases segs.len(),
{
    if segs.len() == 0 {
        Seq::empty()
    } else {
        join_spec(joined(segs.drop_last()), segs.last())
    }
}

/// The first `i` ancestors of `path`, nearest the root first.
pub open spec fn ancestors_upto(path: Seq<char>, i: int) -> Set<Seq<char>> {
    Set::new(|a: Seq<char>| exists|j: int| 1 <= j <= i && a == #[trigger] joined(split_spec(path, '/').take(j)))
}

/// The directories that hold `path`, at every level.
pub open spec fn ancestors(path: Seq<char>) -> Set<Seq<char>> {
    ancestors_upto(path, split_spec(path, '/').len() - 1)
}

/// Expanding every ancestor of `path` and putting the cursor on it: the
/// rows are re-derived only when some ancestor was collapsed, and then
/// take their badges from `files`, as every walk of the tree does.
pub closed spec fn revealed(pre: Tree, post: Tree, path: Seq<char>, r: bool, files: Seq<FileEntry>) -> bool {
    let c1 = pre.collapsed_paths().difference(ancestors(path));
    let changed = exists|a: Seq<char>| pre.collapsed_paths().contains(a) && #[trigger] ancestors(path).contains(a);
    let env = WalkEnv { collapsed: c1, filter: pre.filter@, group: pre.group_dirs, files: entries_model(files) };
    let rows1 = if changed {
        walk_spec(pre.root, Seq::empty(), 0, Seq::empty(), env)
    } else {
        nodes_model(pre.nodes@)
    };
    &&& post.wf()
    &&& post.root == pre.root
    &&& post.collapsed_paths() == c1
    &&& post.filter@ == pre.filter@
    &&& post.group_dirs == pre.group_dirs
    &&& nodes_model(post.nodes@) == rows1
    &&& r == (first_with_path(rows1, path) is Some)
    &&& post.selected == match first_with_path(rows1, path) {
        Some(i) => i as usize,
        None => pre.selected,
    }
}

/// The directories rebuilt from `files`, everything else kept.
pub closed spec fn rebuilt(pre: Tree, post: Tree, files: Seq<FileEntry>) -> bool {
    &&& post.wf()
    &&& post.built_from(files)
    &&& post.collapsed_paths() == pre.collapsed_paths()
    &&& post.filter@ == pre.filter@
    &&& post.group_dirs == pre.group_dirs
    &&& nodes_model(post.nodes@) == post.rows(files)
    &&& post.selected == clamp_selection(pre.selected, post.nodes@.len())
}

/// Grouping of single-child chains switched, the rows recomputed.
pub closed spec fn regrouped(pre: Tree, post: Tree, files: Seq<FileEntry>) -> bool {
    &&& post.wf()
    &&& post.root == pre.root
    &&& post.collapsed_paths() == pre.collapsed_paths()
    &&& post.filter@ == pre.filter@
    &&& post.group_dirs == !pre.group_dirs
    &&& nodes_model(post.nodes@) == post.rows(files)
    &&& post.selected == clamp_selection(pre.selected, post.nodes@.len())
}

/// What neo-tree's `C` collapses for a row: a directory itself, or the
/// directory that holds a file.
pub open spec fn close_target(n: NodeModel) -> Option<Seq<char>> {
    if n.kind == NodeKind::Dir {
        Some(n.path)
    } else {
        parent_of_spec(n.path)
    }
}


/// One step of the cursor over `len` rows, wrapping at both ends.
fn step_index(i: usize, len: usize, forward: bool) -> (r: usize)
    requires
        len > 0,
    ensures
        r == step_from(i as int, len as int, forward),
        r < len,
{
    let m = i % len;
    if forward {
        if m == len - 1 {
            0
        } else {
            m + 1
        }
    } else {
        if m == 0 {
            len - 1
        } else {
            m - 1
        }
    }
}

impl Tree {
    /// The nested directories, collapsed paths and filter are consistent.
    pub closed spec fn wf(&self) -> bool {
        &&& wf_dir(self.root)
        &&& bounded(self.root, usize::MAX as int)
        &&& no_dups(strings_model(self.collapsed@))
    }

    pub closed spec fn sel(&self) -> usize {
        self.selected
    }

    pub closed spec fn node_list(&self) -> Seq<Node> {
        self.nodes@
    }

    pub closed spec fn grouping(&self) -> bool {
        self.group_dirs
    }

    pub closed spec fn collapsed_list(&self) -> Seq<String> {
        self.collapsed@
    }

    pub closed spec fn root_dir(&self) -> Dir {
        self.root
    }

    /// The paths of the collapsed directories.
    pub closed spec fn collapsed_paths(&self) -> Set<Seq<char>> {
        strings_model(self.collapsed@).to_set()
    }

    /// The (lowercased) filter.
    pub closed spec fn filter_text(&self) -> Seq<char> {
        self.filter@
    }

    pub closed spec fn env(&self, files: Seq<FileEntry>) -> WalkEnv {
        WalkEnv {
            collapsed: self.collapsed_paths(),
            filter: self.filter_text(),
            group: self.group_dirs,
            files: entries_model(files),
        }
    }

    /// The rows of the whole tree, statuses taken from `files`.
    pub closed spec fn rows(&self, files: Seq<FileEntry>) -> Seq<NodeModel> {
        walk_spec(self.root_dir(), Seq::empty(), 0, Seq::empty(), self.env(files))
    }

    /// The directories hold exactly the files of `files`, each path under
    /// the index of its last entry, and count all of them.
    pub closed spec fn built_from(&self, files: Seq<FileEntry>) -> bool {
        &&& self.root_dir().count == files.len()
        &&& forall|p: Seq<char>| #[trigger] file_at(self.root_dir(), p) == last_index(entries_model(files), p)
        &&& forall|q: Seq<char>| #[trigger] dir_count_at(self.root_dir(), q) == dir_count_spec(entries_model(files), q)
    }

    pub closed spec fn selected_row(&self) -> Option<NodeModel> {
        if self.selected < self.nodes@.len() {
            Some(self.nodes@[self.selected as int]@)
        } else {
            None
        }
    }

    pub fn new(files: &[FileEntry]) -> (t: Self)
        ensures
            t.wf(),
            t.built_from(files@),
            t.collapsed_paths() == Set::<Seq<char>>::empty(),
            t.filter_text() == Seq::<char>::empty(),
            t.grouping(),
            t.sel() == 0,
            nodes_model(t.node_list()) == t.rows(files@),
    {
        let mut t = Tree {
            root: Dir::empty(),
            collapsed: Vec::new(),
            nodes: Vec::new(),
            selected: 0,
            filter: String::new(),
            group_dirs: true,
        };
        proof {
            assert(strings_model(t.collapsed@).to_set() =~= Set::<Seq<char>>::empty());
            assert(t.root.subdirs@.len() == 0);
        }
        t.rebuild_from(files);
        t
    }

    /// Replace the directories with those of `files`, and the rows.
    fn rebuild_from(&mut self, files: &[FileEntry])
        requires
            old(self).wf(),
        ensures
            final(self).wf(),
            final(self).built_from(files@),
            final(self).collapsed_paths() == old(self).collapsed_paths(),
            final(self).filter_text() == old(self).filter_text(),
            final(self).grouping() == old(self).grouping(),
            final(self).sel() == clamp_selection(old(self).sel(), final(self).node_list().len()),
            nodes_model(final(self).node_list()) == final(self).rows(files@),
    {
        self.root = Dir::empty();
        let ghost fs = entries_model(files@);
        let mut i: usize = 0;
        proof {
            assert(fs.take(0) =~= Seq::<EntryModel>::empty());
            assert forall|p: Seq<char>| #[trigger] file_at(self.root, p) == last_index(fs.take(0), p) by {
                lemma_file_at_empty(self.root, p);
            }
            assert forall|q: Seq<char>| #[trigger] dir_count_at(self.root, q) == dir_count_spec(fs.take(0), q) by {
                lemma_dir_count_at_empty(self.root, q);
            }
        }
        while i < files.len()
            invariant
                fs == entries_model(files@),
                i <= files@.len(),
                wf_dir(self.root),
                bounded(self.root, usize::MAX as int),
                no_dups(strings_model(self.collapsed@)),
                self.root.count == i,
                forall|p: Seq<char>| #[trigger] file_at(self.root, p) == last_index(fs.take(i as int), p),
                forall|q: Seq<char>| #[trigger] dir_count_at(self.root, q) == dir_count_spec(fs.take(i as int), q),
                self.collapsed@ == old(self).collapsed@,
                self.filter@ == old(self).filter@,
                self.group_dirs == old(self).group_dirs,
                self.selected == old(self).selected,
            decreases files@.len() - i,
        {
            let path = files[i].path.as_str();
            let _n = path.unicode_len();
            let ghost r0 = self.root;
            insert(&mut self.root, path, i);
            proof {
                assert(fs.take(i + 1).drop_last() =~= fs.take(i as int));
                assert(fs.take(i + 1).last().path == path@);
                assert forall|q: Seq<char>| #[trigger] dir_count_at(self.root, q) == dir_count_spec(fs.take(i + 1), q) by {
                    assert(dir_count_at(self.root, q) == bumped(dir_count_at(r0, q), below(q, path@)));
                    assert(dir_count_at(r0, q) == dir_count_spec(fs.take(i as int), q));
                }
            }
            i = i + 1;
        }
        proof {
            assert(fs.take(i as int) =~= fs);
        }
        self.flatten(files);
    }

    /// Recompute the rows; keep the selection in range.
    fn flatten(&mut self, files: &[FileEntry])
        requires
            old(self).wf(),
        ensures
            final(self).wf(),
            final(self).root_dir() == old(self).root_dir(),
            final(self).collapsed_paths() == old(self).collapsed_paths(),
            final(self).collapsed_list() == old(self).collapsed_list(),
            final(self).filter_text() == old(self).filter_text(),
            final(self).grouping() == old(self).grouping(),
            final(self).sel() == clamp_selection(old(self).sel(), final(self).node_list().len()),
            nodes_model(final(self).node_list()) == final(self).rows(files@),
    {
        let mut out: Vec<Node> = Vec::new();
        let guides: Vec<bool> = Vec::new();
        proof {
            reveal_strlit("");
        }
        walk(&self.root, "", 0, &guides, &self.collapsed, self.filter.as_str(), self.group_dirs, files, &mut out);
        proof {
            assert(""@ =~= Seq::<char>::empty());
            assert(guides@ =~= Seq::<bool>::empty());
            assert(nodes_model(out@) =~= self.rows(files@));
        }
        self.nodes = out;
        if self.selected >= self.nodes.len() {
            self.selected = if self.nodes.len() == 0 {
                0
            } else {
                self.nodes.len() - 1
            };
        }
    }

    /// Index of the selected row.
    pub fn selection(&self) -> (r: usize)
        ensures
            r == self.sel(),
    {
        self.selected
    }

    /// Whether the cursor is on a directory row.
    pub fn selected_is_dir(&self) -> (r: bool)
        ensures
            r == (self.selected_row() matches Some(n) && n.kind == NodeKind::Dir),
    {
        self.selected < self.nodes.len() && self.nodes[self.selected].kind == NodeKind::Dir
    }

    /// How many rows the tree shows.
    pub fn row_count(&self) -> (r: usize)
        ensures
            r == self.node_list().len(),
    {
        self.nodes.len()
    }

    pub fn selected_node(&self) -> (r: Option<&Node>)
        ensures
            match r {
                Some(n) => self.sel() < self.node_list().len() && *n == self.node_list()[self.sel() as int],
                None => self.sel() >= self.node_list().len(),
            },
    {
        if self.selected < self.nodes.len() {
            Some(&self.nodes[self.selected])
        } else {
            None
        }
    }

    pub fn selected_path(&self) -> (r: Option<&str>)
        ensures
            match r {
                Some(p) => self.selected_row() matches Some(n) && p@ == n.path,
                None => self.selected_row() is None,
            },
    {
        match self.selected_node() {
            Some(n) => Some(n.path.as_str()),
            None => None,
        }
    }

    /// The file index under the cursor, if the cursor is on a file.
    pub fn selected_file(&self) -> (r: Option<usize>)
        ensures
            r == match self.selected_row() {
                Some(n) => match n.kind {
                    NodeKind::File(i) => Some(i),
                    NodeKind::Dir => None,
                },
                None => None,
            },
    {
        match self.selected_node() {
            Some(n) => match n.kind {
                NodeKind::File(i) => Some(i),
                NodeKind::Dir => None,
            },
            None => None,
        }
    }

    /// Move the cursor by `delta` rows, stopping at either end.
    pub fn move_by(&mut self, delta: isize)
        requires
            old(self).sel() <= isize::MAX,
            old(self).sel() + delta <= isize::MAX,
        ensures
            old(self).wf() ==> final(self).wf(),
            final(self).node_list() == old(self).node_list(),
            final(self).root_dir() == old(self).root_dir(),
            final(self).collapsed_list() == old(self).collapsed_list(),
            final(self).filter_text() == old(self).filter_text(),
            final(self).grouping() == old(self).grouping(),
            old(self).node_list().len() == 0 ==> final(self).sel() == old(self).sel(),
            old(self).node_list().len() > 0 ==> final(self).sel() == (if old(self).sel() + delta < 0 {
                0
            } else if old(self).sel() + delta > old(self).node_list().len() - 1 {
                old(self).node_list().len() - 1
            } else {
                old(self).sel() + delta
            }),
    {
        if self.nodes.len() == 0 {
            return;
        }
        let last = self.nodes.len() - 1;
        let next: isize = self.selected as isize + delta;
        self.selected = if next < 0 {
            0
        } else if next as usize > last {
            last
        } else {
            next as usize
        };
    }

    pub fn select_first(&mut self)
        ensures
            old(self).wf() ==> final(self).wf(),
            final(self).sel() == 0,
            final(self).node_list() == old(self).node_list(),
            final(self).root_dir() == old(self).root_dir(),
            final(self).collapsed_list() == old(self).collapsed_list(),
            final(self).filter_text() == old(self).filter_text(),
            final(self).grouping() == old(self).grouping(),
    {
        self.selected = 0;
    }

    pub fn select_last(&mut self)
        ensures
            old(self).wf() ==> final(self).wf(),
            final(self).sel() == clamp_selection(usize::MAX, old(self).node_list().len()),
            final(self).node_list() == old(self).node_list(),
            final(self).root_dir() == old(self).root_dir(),
            final(self).collapsed_list() == old(self).collapsed_list(),
            final(self).filter_text() == old(self).filter_text(),
            final(self).grouping() == old(self).grouping(),
    {
        self.selected = if self.nodes.len() == 0 {
            0
        } else {
            self.nodes.len() - 1
        };
    }

    /// Put the cursor on `path` if it is currently visible.
    fn reveal_shallow(&mut self, path: &str) -> (r: bool)
        ensures
            r == (first_with_path(nodes_model(old(self).node_list()), path@) is Some),
            final(self).sel() == match first_with_path(nodes_model(old(self).node_list()), path@) {
                Some(i) => i as usize,
                None => old(self).sel(),
            },
            final(self).node_list() == old(self).node_list(),
            final(self).root_dir() == old(self).root_dir(),
            final(self).collapsed_list() == old(self).collapsed_list(),
            final(self).filter_text() == old(self).filter_text(),
            final(self).grouping() == old(self).grouping(),
    {
        let ghost rows = nodes_model(self.nodes@);
        let mut i: usize = 0;
        while i < self.nodes.len()
            invariant
                *self == *old(self),
                rows == nodes_model(self.nodes@),
                i <= self.nodes@.len(),
                forall|j: int| 0 <= j < i ==> rows[j].path != path@,
            decreases self.nodes@.len() - i,
        {
            if str_eq(self.nodes[i].path.as_str(), path) {
                proof {
                    assert(rows[i as int].path == path@);
                    let k = choose|k: int| 0 <= k < rows.len() && (#[trigger] rows[k]).path == path@ && forall|j: int| 0 <= j < k ==> rows[j].path != path@;
                    assert(k == i) by {
                        if k < i {
                            assert(rows[k].path != path@);
                        }
                        if i < k {
                            assert(rows[i as int].path != path@);
                        }
                    }
                }
                self.selected = i;
                return true;
            }
            i = i + 1;
        }
        false
    }

    /// Move to the next (or previous) *file* row, skipping directories and
    /// wrapping around. This is what `]g` / `[g` drive.
    pub fn step_file(&mut self, forward: bool) -> (r: Option<usize>)
        ensures
            old(self).wf() ==> final(self).wf(),
            old(self).node_list().len() == 0 ==> r is None && *final(self) == *old(self),
            old(self).node_list().len() > 0 ==> match file_step(nodes_model(old(self).node_list()), old(self).sel() as int, forward, 1) {
                Some(t) => {
                    let i = step_pos(old(self).sel() as int, old(self).node_list().len() as int, forward, t);
                    &&& r == (match nodes_model(old(self).node_list())[i].kind {
                        NodeKind::File(f) => Some(f),
                        NodeKind::Dir => None,
                    })
                    &&& final(self).sel() == i
                    &&& final(self).node_list() == old(self).node_list()
                    &&& final(self).root_dir() == old(self).root_dir()
                    &&& final(self).collapsed_list() == old(self).collapsed_list()
                    &&& final(self).filter_text() == old(self).filter_text()
                    &&& final(self).grouping() == old(self).grouping()
                },
                None => r is None && *final(self) == *old(self),
            },
    {
        let ghost rows = nodes_model(self.nodes@);
        let ghost sel0 = self.selected;
        if self.nodes.len() == 0 {
            return None;
        }
        let len = self.nodes.len();
        let mut i = self.selected;
        let mut t: usize = 0;
        while t < len
            invariant
                *self == *old(self),
                rows == nodes_model(self.nodes@),
                sel0 == self.selected,
                len == self.nodes@.len(),
                len > 0,
                t <= len,
                i == step_pos(sel0 as int, len as int, forward, t as nat),
                file_step(rows, sel0 as int, forward, 1) == file_step(rows, sel0 as int, forward, (t + 1) as nat),
            decreases len - t,
        {
            i = step_index(i, len, forward);
            t = t + 1;
            if let NodeKind::File(f) = self.nodes[i].kind {
                self.selected = i;
                return Some(f);
            }
        }
        None
    }

    /// Collapse the directory under the cursor, or expand it again.
    pub fn toggle(&mut self, files: &[FileEntry])
        requires
            old(self).wf(),
        ensures
            old(self).wf() ==> final(self).wf(),
            match old(self).selected_row() {
                Some(n) => if n.kind == NodeKind::Dir {
                    reflowed(*old(self), *final(self), toggled(old(self).collapsed_paths(), n.path), files@)
                } else {
                    *final(self) == *old(self)
                },
                None => *final(self) == *old(self),
            },
    {
        let path = match self.selected_node() {
            Some(node) => {
                if !node.is_dir() {
                    return;
                }
                owned(node.path.as_str())
            },
            None => {
                return;
            },
        };
        let ghost c0 = self.collapsed_paths();
        if !remove_path(&mut self.collapsed, path.as_str()) {
            add_path(&mut self.collapsed, path.as_str());
        }
        proof {
            assert(self.collapsed_paths() =~= toggled(c0, path@));
        }
        self.flatten(files);
    }

    pub fn expand_all(&mut self, files: &[FileEntry])
        requires
            old(self).wf(),
        ensures
            old(self).wf() ==> final(self).wf(),
            reflowed(*old(self), *final(self), Set::empty(), files@),
    {
        self.collapsed = Vec::new();
        proof {
            assert(self.collapsed_paths() =~= Set::<Seq<char>>::empty());
        }
        self.flatten(files);
    }

    /// neo-tree's `z`.
    pub fn close_all(&mut self, files: &[FileEntry])
        requires
            old(self).wf(),
        ensures
            old(self).wf() ==> final(self).wf(),
            all_closed(*old(self), *final(self), files@),
    {
        let ghost pre = *self;
        let prev: Option<String> = match self.selected_path() {
            Some(p) => Some(owned(p)),
            None => None,
        };
        let ghost rows = nodes_model(self.nodes@);
        let mut i: usize = 0;
        while i < self.nodes.len()
            invariant
                self.nodes@ == pre.nodes@,
                rows == nodes_model(self.nodes@),
                self.root == pre.root,
                self.filter@ == pre.filter@,
                self.group_dirs == pre.group_dirs,
                self.selected == pre.selected,
                wf_dir(self.root),
                bounded(self.root, usize::MAX as int),
                no_dups(strings_model(self.collapsed@)),
                i <= self.nodes@.len(),
                self.collapsed_paths() == pre.collapsed_paths().union(dir_paths_upto(rows, i as int)),
            decreases self.nodes@.len() - i,
        {
            let ghost before = self.collapsed_paths();
            if self.nodes[i].is_dir() {
                add_path(&mut self.collapsed, self.nodes[i].path.as_str());
            }
            proof {
                assert forall|p: Seq<char>| #[trigger] dir_paths_upto(rows, i + 1).contains(p)
                    == (dir_paths_upto(rows, i as int).contains(p) || (rows[i as int].kind == NodeKind::Dir && rows[i as int].path == p)) by {
                    if dir_paths_upto(rows, i + 1).contains(p) {
                        let j = choose|j: int| 0 <= j < i + 1 && (#[trigger] rows[j]).kind == NodeKind::Dir && rows[j].path == p;
                        if j < i {
                            assert(dir_paths_upto(rows, i as int).contains(p));
                        }
                    }
                    if rows[i as int].kind == NodeKind::Dir && rows[i as int].path == p {
                        assert(0 <= i < i + 1 && rows[i as int].kind == NodeKind::Dir && rows[i as int].path == p);
                    }
                }
                assert(self.collapsed_paths() =~= pre.collapsed_paths().union(dir_paths_upto(rows, i + 1)));
            }
            i = i + 1;
        }
        proof {
            assert(dir_paths_upto(rows, 0) =~= Set::<Seq<char>>::empty());
            assert(dir_paths_upto(rows, i as int) =~= dir_paths(rows));
            assert(self.collapsed_paths() =~= pre.collapsed_paths().union(dir_paths(rows)));
        }
        self.flatten(files);
        let ghost mid = *self;
        let ghost shown = nodes_model(self.nodes@);
        if let Some(p) = prev {
            let mut probe: &str = p.as_str();
            loop
                invariant_except_break
                    self.nodes@ == mid.nodes@,
                    self.root == mid.root,
                    self.collapsed@ == mid.collapsed@,
                    self.filter@ == mid.filter@,
                    self.group_dirs == mid.group_dirs,
                    self.selected == mid.selected,
                    shown == nodes_model(self.nodes@),
                    settle(shown, probe@) == settle(shown, p@),
                ensures
                    self.nodes@ == mid.nodes@,
                    self.root == mid.root,
                    self.collapsed@ == mid.collapsed@,
                    self.filter@ == mid.filter@,
                    self.group_dirs == mid.group_dirs,
                    self.selected == match settle(shown, p@) {
                        Some(i) => i as usize,
                        None => mid.selected,
                    },
                decreases probe@.len(),
            {
                if self.reveal_shallow(probe) {
                    break;
                }
                proof {
                    lemma_last_slash(probe@, probe@.len() as int);
                }
                match parent_of(probe) {
                    Some(q) => {
                        probe = q;
                    },
                    None => {
                        break;
                    },
                }
            }
        }
    }

    /// One key for both directions: collapse everything if anything is open,
    /// otherwise open everything. Returns what it did -- `Some(true)` for
    /// opening -- or `None` when the tree has no directory to fold.
    pub fn toggle_all(&mut self, files: &[FileEntry]) -> (r: Option<bool>)
        requires
            old(self).wf(),
        ensures
            old(self).wf() ==> final(self).wf(),
            toggled_all(*old(self), *final(self), files@, r),
    {
        let ghost rows = nodes_model(self.nodes@);
        let mut any_dir = false;
        let mut any_open = false;
        let mut i: usize = 0;
        while i < self.nodes.len()
            invariant
                rows == nodes_model(self.nodes@),
                i <= self.nodes@.len(),
                any_dir == exists|j: int| 0 <= j < i && (#[trigger] rows[j]).kind == NodeKind::Dir,
                any_open == exists|j: int| 0 <= j < i && (#[trigger] rows[j]).kind == NodeKind::Dir && rows[j].expanded,
            decreases self.nodes@.len() - i,
        {
            if self.nodes[i].is_dir() {
                any_dir = true;
                if self.nodes[i].expanded {
                    any_open = true;
                }
            }
            proof {
                assert(rows[i as int] == self.nodes@[i as int]@);
            }
            i = i + 1;
        }
        if !any_dir {
            return None;
        }
        // Only visible rows are checked, which is the point: once the top
        // level is collapsed nothing below it counts as open.
        if any_open {
            self.close_all(files);
        } else {
            self.expand_all(files);
        }
        Some(!any_open)
    }

    /// neo-tree's `<bs>`: jump to the parent directory row.
    pub fn navigate_up(&mut self)
        ensures
            old(self).wf() ==> final(self).wf(),
            match old(self).selected_row() {
                Some(n) => match parent_of_spec(n.path) {
                    Some(q) => shallow_moved(*old(self), *final(self), q),
                    None => *final(self) == *old(self),
                },
                None => *final(self) == *old(self),
            },
    {
        let parent = match self.selected_node() {
            Some(node) => match parent_of(node.path.as_str()) {
                Some(q) => owned(q),
                None => {
                    return;
                },
            },
            None => {
                return;
            },
        };
        self.reveal_shallow(parent.as_str());
    }

    /// Re-derive the rows for the current folds, badges from `files`; the
    /// selection stays as it is.
    fn reflatten(&mut self, files: &[FileEntry])
        requires
            old(self).wf(),
        ensures
            final(self).wf(),
            final(self).root == old(self).root,
            final(self).collapsed@ == old(self).collapsed@,
            final(self).filter@ == old(self).filter@,
            final(self).group_dirs == old(self).group_dirs,
            final(self).selected == old(self).selected,
            nodes_model(final(self).nodes@) == walk_spec(
                old(self).root,
                Seq::empty(),
                0,
                Seq::empty(),
                WalkEnv {
                    collapsed: old(self).collapsed_paths(),
                    filter: old(self).filter@,
                    group: old(self).group_dirs,
                    files: entries_model(files@),
                },
            ),
    {
        let mut out: Vec<Node> = Vec::new();
        let guides: Vec<bool> = Vec::new();
        proof {
            reveal_strlit("");
            assert(""@ =~= Seq::<char>::empty());
            assert(guides@ =~= Seq::<bool>::empty());
        }
        walk(&self.root, "", 0, &guides, &self.collapsed, self.filter.as_str(), self.group_dirs, files, &mut out);
        self.nodes = out;
    }

    /// Expand every ancestor of `path` and put the cursor on it.
    pub fn reveal_path(&mut self, path: &str, files: &[FileEntry]) -> (r: bool)
        requires
            old(self).wf(),
        ensures
            old(self).wf() ==> final(self).wf(),
            revealed(*old(self), *final(self), path@, r, files@),
    {
        let ghost pre = *self;
        let ghost c0 = self.collapsed_paths();
        let segs = split_char(path, '/');
        let ghost sp = split_spec(path@, '/');
        proof {
            lemma_split_nonempty(path@, '/');
            reveal_strlit("");
        }
        let mut changed = false;
        let mut acc = String::new();
        let mut i: usize = 0;
        proof {
            assert(sp.take(0) =~= Seq::<Seq<char>>::empty());
            assert(ancestors_upto(path@, 0) =~= Set::<Seq<char>>::empty());
            assert(c0.difference(ancestors_upto(path@, 0)) =~= c0);
        }
        while i < segs.len() - 1
            invariant
                segs@.len() == sp.len(),
                sp == split_spec(path@, '/'),
                forall|k: int| 0 <= k < segs@.len() ==> #[trigger] segs@[k]@ == sp[k],
                i < segs@.len(),
                acc@ == joined(sp.take(i as int)),
                self.root == pre.root,
                self.nodes@ == pre.nodes@,
                self.filter@ == pre.filter@,
                self.group_dirs == pre.group_dirs,
                self.selected == pre.selected,
                wf_dir(self.root),
                bounded(self.root, usize::MAX as int),
                no_dups(strings_model(self.collapsed@)),
                c0 == pre.collapsed_paths(),
                self.collapsed_paths() == c0.difference(ancestors_upto(path@, i as int)),
                changed == exists|a: Seq<char>| c0.contains(a) && #[trigger] ancestors_upto(path@, i as int).contains(a),
            decreases segs@.len() - i,
        {
            let next = join(acc.as_str(), segs[i].as_str());
            proof {
                assert(sp.take(i + 1).drop_last() =~= sp.take(i as int));
                assert(next@ == joined(sp.take(i + 1)));
            }
            let ghost before = self.collapsed_paths();
            assert(before == c0.difference(ancestors_upto(path@, i as int)));
            let was = remove_path(&mut self.collapsed, next.as_str());
            assert(was == before.contains(next@));
            proof {
                assert forall|a: Seq<char>| #[trigger] ancestors_upto(path@, i + 1).contains(a)
                    == (ancestors_upto(path@, i as int).contains(a) || a == next@) by {
                    if ancestors_upto(path@, i + 1).contains(a) {
                        let j = choose|j: int| 1 <= j <= i + 1 && a == #[trigger] joined(sp.take(j));
                        if j <= i {
                            assert(ancestors_upto(path@, i as int).contains(a));
                        }
                    }
                    if ancestors_upto(path@, i as int).contains(a) {
                        let j = choose|j: int| 1 <= j <= i && a == #[trigger] joined(sp.take(j));
                        assert(1 <= j <= i + 1 && a == joined(sp.take(j)));
                    }
                    if a == next@ {
                        assert(1 <= i + 1 <= i + 1 && a == joined(sp.take(i + 1)));
                    }
                }
                assert(self.collapsed_paths() =~= c0.difference(ancestors_upto(path@, i + 1)));
                if was {
                    assert(c0.contains(next@) && ancestors_upto(path@, i + 1).contains(next@));
                }
                if changed {
                    let a = choose|a: Seq<char>| c0.contains(a) && #[trigger] ancestors_upto(path@, i as int).contains(a);
                    assert(ancestors_upto(path@, i + 1).contains(a));
                }
                if exists|a: Seq<char>| c0.contains(a) && #[trigger] ancestors_upto(path@, i + 1).contains(a) {
                    let a = choose|a: Seq<char>| c0.contains(a) && #[trigger] ancestors_upto(path@, i + 1).contains(a);
                    if a != next@ {
                        assert(ancestors_upto(path@, i as int).contains(a));
                    } else if !ancestors_upto(path@, i as int).contains(a) {
                        assert(before.contains(a));
                    }
                }
            }
            if was {
                changed = true;
            }
            acc = next;
            i = i + 1;
        }
        if changed {
            self.reflatten(files);
        }
        self.reveal_shallow(path)
    }

    /// Replace the contents, keeping expansion state and (if possible) the
    /// selected path across a reload.
    pub fn reload(&mut self, files: &[FileEntry])
        requires
            old(self).wf(),
        ensures
            old(self).wf() ==> final(self).wf(),
            final(self).wf(),
            final(self).built_from(files@),
            exists|mid: Tree|
                rebuilt(*old(self), mid, files@) && match old(self).selected_row() {
                    Some(n) => exists|r: bool| revealed(mid, *final(self), n.path, r, files@),
                    None => *final(self) == mid,
                },
    {
        let previous: Option<String> = match self.selected_path() {
            Some(p) => Some(owned(p)),
            None => None,
        };
        let ghost pre = *self;
        self.rebuild_from(files);
        let ghost mid = *self;
        assert(rebuilt(pre, mid, files@));
        match previous {
            Some(p) => {
                let r = self.reveal_path(p.as_str(), files);
                assert(revealed(mid, *self, p@, r, files@));
            },
            None => {},
        }
    }

    pub fn set_filter(&mut self, filter: &str, files: &[FileEntry])
        requires
            old(self).wf(),
        ensures
            old(self).wf() ==> final(self).wf(),
            final(self).wf(),
            final(self).root_dir() == old(self).root_dir(),
            final(self).collapsed_paths() == old(self).collapsed_paths(),
            final(self).filter_text() == lowercase_of(filter@),
            final(self).grouping() == old(self).grouping(),
            nodes_model(final(self).node_list()) == final(self).rows(files@),
            final(self).sel() == clamp_selection(old(self).sel(), final(self).node_list().len()),
    {
        self.filter = to_lowercase(filter);
        self.flatten(files);
        let cap = if self.nodes.len() == 0 {
            0
        } else {
            self.nodes.len() - 1
        };
        if self.selected > cap {
            self.selected = cap;
        }
    }

    pub fn filter(&self) -> (r: &str)
        ensures
            r@ == self.filter_text(),
    {
        self.filter.as_str()
    }

    pub fn toggle_group_dirs(&mut self, files: &[FileEntry])
        requires
            old(self).wf(),
        ensures
            old(self).wf() ==> final(self).wf(),
            final(self).wf(),
            exists|mid: Tree|
                regrouped(*old(self), mid, files@) && match old(self).selected_row() {
                    Some(n) => exists|r: bool| revealed(mid, *final(self), n.path, r, files@),
                    None => *final(self) == mid,
                },
    {
        let ghost pre = *self;
        self.group_dirs = !self.group_dirs;
        let previous: Option<String> = match self.selected_path() {
            Some(p) => Some(owned(p)),
            None => None,
        };
        self.flatten(files);
        let ghost mid = *self;
        assert(regrouped(pre, mid, files@));
        match previous {
            Some(p) => {
                let r = self.reveal_path(p.as_str(), files);
                assert(revealed(mid, *self, p@, r, files@));
            },
            None => {},
        }
    }

    /// neo-tree's `C`: collapse the directory under the cursor, or the parent
    /// directory when the cursor is already on a file, and put the cursor on
    /// the collapsed row.
    pub fn close_node(&mut self, files: &[FileEntry])
        requires
            old(self).wf(),
        ensures
            old(self).wf() ==> final(self).wf(),
            final(self).wf(),
            match old(self).selected_row() {
                Some(n) => match close_target(n) {
                    Some(t) => exists|mid: Tree|
                        reflowed(*old(self), mid, old(self).collapsed_paths().insert(t), files@)
                            && exists|r: bool| revealed(mid, *final(self), t, r, files@),
                    None => *final(self) == *old(self),
                },
                None => *final(self) == *old(self),
            },
    {
        let target = match self.selected_node() {
            Some(node) => {
                if node.is_dir() {
                    owned(node.path.as_str())
                } else {
                    match parent_of(node.path.as_str()) {
                        Some(p) => owned(p),
                        None => {
                            return;
                        },
                    }
                }
            },
            None => {
                return;
            },
        };
        let ghost pre = *self;
        add_path(&mut self.collapsed, target.as_str());
        self.flatten(files);
        let ghost mid = *self;
        assert(reflowed(pre, mid, pre.collapsed_paths().insert(target@), files@));
        let r = self.reveal_path(target.as_str(), files);
        assert(revealed(mid, *self, target@, r, files@));
        assert(reflowed(pre, mid, pre.collapsed_paths().insert(target@), files@) && exists|r: bool| revealed(mid, *self, target@, r, files@));
        proof {
            match old(self).selected_row() {
                Some(n) => match close_target(n) {
                    Some(t) => {
                        assert(t == target@);
                        assert(reflowed(*old(self), mid, old(self).collapsed_paths().insert(t), files@));
                        assert(revealed(mid, *self, t, r, files@));
                    },
                    None => {},
                },
                None => {},
            }
        }
    }
}

// ------------------------------------------------------------------- laws

/// Toggling the same directory twice gives back the collapsed paths it
/// started from, and with them every row.
/// Whether a tree was built from a list of files depends on its
/// directories alone.
pub proof fn built_from_follows_root(a: Tree, b: Tree, files: Seq<FileEntry>)
    requires
        a.root_dir() == b.root_dir(),
    ensures
        a.built_from(files) == b.built_from(files),
{
}

pub proof fn toggle_twice_restores(t0: Tree, t1: Tree, t2: Tree, p: Seq<char>, files: Seq<FileEntry>)
    requires
        reflowed(t0, t1, toggled(t0.collapsed_paths(), p), files),
        reflowed(t1, t2, toggled(t1.collapsed_paths(), p), files),
    ensures
        t2.collapsed_paths() == t0.collapsed_paths(),
        t2.rows(files) == t0.rows(files),
{
    assert(toggled(toggled(t0.collapsed_paths(), p), p) =~= t0.collapsed_paths());
}

/// After revealing, when a row for the path is shown the cursor is on it.
pub proof fn reveal_selects_the_path(pre: Tree, post: Tree, path: Seq<char>, files: Seq<FileEntry>)
    requires
        revealed(pre, post, path, true, files),
    ensures
        post.selected_row() matches Some(n) && n.path == path,
{
    let rows1 = nodes_model(post.nodes@);
    let w = choose|i: int| 0 <= i < rows1.len() && (#[trigger] rows1[i]).path == path;
    lemma_first_with_path(rows1, path, w);
    let k = first_with_path(rows1, path)->0;
    assert(post.nodes.len() == post.nodes@.len()) by {
        broadcast use vstd::std_specs::vec::axiom_spec_len;
    }
    assert(post.selected == k);
    assert(rows1[k] == post.nodes@[k]@);
}

/// A row for `path` at `i` means there is a first one.
proof fn lemma_first_with_path(rows: Seq<NodeModel>, path: Seq<char>, i: int)
    requires
        0 <= i < rows.len(),
        rows[i].path == path,
    ensures
        first_with_path(rows, path) matches Some(k) && 0 <= k <= i && rows[k].path == path
            && forall|j: int| 0 <= j < k ==> rows[j].path != path,
    decreases i,
{
    if exists|j: int| 0 <= j < i && (#[trigger] rows[j]).path == path {
        let j = choose|j: int| 0 <= j < i && (#[trigger] rows[j]).path == path;
        lemma_first_with_path(rows, path, j);
    } else {
        assert(0 <= i < rows.len() && rows[i].path == path && forall|j: int| 0 <= j < i ==> rows[j].path != path);
    }
}

/// Every row of the files of `d` is a file row.
proof fn lemma_files_rows_are_files(d: Dir, prefix: Seq<char>, depth: nat, guides: Seq<bool>, env: WalkEnv, j: int)
    ensures
        forall|x: int| 0 <= x < files_rows(d, prefix, depth, guides, env, j).len()
            ==> (#[trigger] files_rows(d, prefix, depth, guides, env, j)[x]).kind is File,
    decreases j,
{
    if j > 0 && j <= d.files@.len() {
        lemma_files_rows_are_files(d, prefix, depth, guides, env, j - 1);
        let a = files_rows(d, prefix, depth, guides, env, j - 1);
        let b = file_row(d, prefix, depth, guides, env, j - 1);
        assert forall|x: int| 0 <= x < (a + b).len() implies (#[trigger] (a + b)[x]).kind is File by {
            if x < a.len() {
                assert((a + b)[x] == a[x]);
            } else {
                assert((a + b)[x] == b[x - a.len()]);
            }
        }
    }
}

/// A directory's row does not depend on which paths are collapsed, only
/// whether it is expanded does; and a collapsed one shows no rows below.
proof fn lemma_grouped_head(
    g: Dir,
    label: Seq<char>,
    path: Seq<char>,
    depth: nat,
    guides: Seq<bool>,
    last: bool,
    e0: WalkEnv,
    e1: WalkEnv,
)
    requires
        e0.filter == e1.filter,
        e0.group == e1.group,
    ensures
        ({
            let r0 = grouped_rows(g, label, path, depth, guides, last, e0);
            let r1 = grouped_rows(g, label, path, depth, guides, last, e1);
            &&& (r0.len() == 0 <==> r1.len() == 0)
            &&& r1.len() > 0 ==> {
                &&& r0[0].kind == NodeKind::Dir
                &&& r1[0].kind == NodeKind::Dir
                &&& r0[0].path == r1[0].path
                &&& r1[0].expanded == !e1.collapsed.contains(r1[0].path)
                &&& e1.collapsed.contains(r1[0].path) ==> r1 == seq![r1[0]]
            }
        }),
    decreases g,
{
    if e0.group && g.files@.len() == 0 && g.subdirs@.len() == 1 {
        let n = g.subdirs@[0].0@;
        lemma_grouped_head(g.subdirs@[0].1, label + seq!['/'] + n, join_spec(path, n), depth, guides, last, e0, e1);
    }
}

/// Every directory row of the first `k` subdirectories under `e1` is
/// collapsed, when every directory row under `e0` has its path collapsed in
/// `e1`.
proof fn lemma_dirs_rows_closed(d: Dir, prefix: Seq<char>, depth: nat, guides: Seq<bool>, e0: WalkEnv, e1: WalkEnv, k: int)
    requires
        e0.filter == e1.filter,
        e0.group == e1.group,
        0 <= k <= d.subdirs@.len(),
        forall|x: int| 0 <= x < dirs_rows(d, prefix, depth, guides, e0, k).len()
            && (#[trigger] dirs_rows(d, prefix, depth, guides, e0, k)[x]).kind == NodeKind::Dir
            ==> e1.collapsed.contains(dirs_rows(d, prefix, depth, guides, e0, k)[x].path),
    ensures
        forall|x: int| 0 <= x < dirs_rows(d, prefix, depth, guides, e1, k).len()
            && (#[trigger] dirs_rows(d, prefix, depth, guides, e1, k)[x]).kind == NodeKind::Dir
            ==> !dirs_rows(d, prefix, depth, guides, e1, k)[x].expanded,
    decreases k,
{
    if k > 0 {
        let a0 = dirs_rows(d, prefix, depth, guides, e0, k - 1);
        let a1 = dirs_rows(d, prefix, depth, guides, e1, k - 1);
        let last = k == d.subdirs@.len() + d.files@.len();
        let g0 = grouped_rows(d.subdirs@[k - 1].1, d.subdirs@[k - 1].0@, join_spec(prefix, d.subdirs@[k - 1].0@), depth, guides, last, e0);
        let g1 = grouped_rows(d.subdirs@[k - 1].1, d.subdirs@[k - 1].0@, join_spec(prefix, d.subdirs@[k - 1].0@), depth, guides, last, e1);
        assert(dirs_rows(d, prefix, depth, guides, e0, k) == a0 + g0);
        assert(dirs_rows(d, prefix, depth, guides, e1, k) == a1 + g1);
        assert forall|x: int| 0 <= x < a0.len() && (#[trigger] a0[x]).kind == NodeKind::Dir implies e1.collapsed.contains(a0[x].path) by {
            assert((a0 + g0)[x] == a0[x]);
        }
        lemma_dirs_rows_closed(d, prefix, depth, guides, e0, e1, k - 1);
        lemma_grouped_head(d.subdirs@[k - 1].1, d.subdirs@[k - 1].0@, join_spec(prefix, d.subdirs@[k - 1].0@), depth, guides, last, e0, e1);
        if g1.len() > 0 {
            assert((a0 + g0)[a0.len() as int] == g0[0]);
            assert(e1.collapsed.contains(g1[0].path));
        }
        assert forall|x: int| 0 <= x < (a1 + g1).len() && (#[trigger] (a1 + g1)[x]).kind == NodeKind::Dir implies !(a1 + g1)[x].expanded by {
            if x < a1.len() {
                assert((a1 + g1)[x] == a1[x]);
            } else {
                assert((a1 + g1)[x] == g1[x - a1.len()]);
            }
        }
    }
}

/// neo-tree's `z` leaves no directory row open: every directory row still
/// shown is collapsed.
pub proof fn closing_all_leaves_nothing_open(pre: Tree, post: Tree, files0: Seq<FileEntry>, files: Seq<FileEntry>)
    requires
        nodes_model(pre.node_list()) == pre.rows(files0),
        all_closed(pre, post, files),
    ensures
        !has_open_dir_row(nodes_model(post.node_list())),
{
    let e0 = pre.env(files0);
    let e1 = post.env(files);
    let root = pre.root;
    let s = root.subdirs@.len() as int;
    let d0 = dirs_rows(root, Seq::empty(), 0, Seq::empty(), e0, s);
    let f0 = files_rows(root, Seq::empty(), 0, Seq::empty(), e0, root.files@.len() as int);
    let d1 = dirs_rows(root, Seq::empty(), 0, Seq::empty(), e1, s);
    let f1 = files_rows(root, Seq::empty(), 0, Seq::empty(), e1, root.files@.len() as int);
    assert(pre.rows(files0) == d0 + f0);
    assert(post.rows(files) == d1 + f1);
    assert forall|x: int| 0 <= x < d0.len() && (#[trigger] d0[x]).kind == NodeKind::Dir implies e1.collapsed.contains(d0[x].path) by {
        assert((d0 + f0)[x] == d0[x]);
        assert(dir_paths(nodes_model(pre.nodes@)).contains(d0[x].path));
    }
    lemma_dirs_rows_closed(root, Seq::empty(), 0, Seq::empty(), e0, e1, s);
    lemma_files_rows_are_files(root, Seq::empty(), 0, Seq::empty(), e1, root.files@.len() as int);
    let rows = nodes_model(post.nodes@);
    assert forall|x: int| 0 <= x < rows.len() && (#[trigger] rows[x]).kind == NodeKind::Dir implies !rows[x].expanded by {
        if x < d1.len() {
            assert((d1 + f1)[x] == d1[x]);
        } else {
            assert((d1 + f1)[x] == f1[x - d1.len()]);
        }
    }
}

/// With nothing collapsed, every directory row is expanded.
proof fn lemma_walk_all_open(d: Dir, prefix: Seq<char>, depth: nat, guides: Seq<bool>, env: WalkEnv)
    requires
        env.collapsed == Set::<Seq<char>>::empty(),
    ensures
        forall|x: int| 0 <= x < walk_spec(d, prefix, depth, guides, env).len()
            && (#[trigger] walk_spec(d, prefix, depth, guides, env)[x]).kind == NodeKind::Dir
            ==> walk_spec(d, prefix, depth, guides, env)[x].expanded,
    decreases d, 3int, 0int,
{
    let a = dirs_rows(d, prefix, depth, guides, env, d.subdirs@.len() as int);
    let b = files_rows(d, prefix, depth, guides, env, d.files@.len() as int);
    lemma_dirs_rows_all_open(d, prefix, depth, guides, env, d.subdirs@.len() as int);
    lemma_files_rows_are_files(d, prefix, depth, guides, env, d.files@.len() as int);
    assert forall|x: int| 0 <= x < (a + b).len() && (#[trigger] (a + b)[x]).kind == NodeKind::Dir implies (a + b)[x].expanded by {
        if x < a.len() {
            assert((a + b)[x] == a[x]);
        } else {
            assert((a + b)[x] == b[x - a.len()]);
        }
    }
}

proof fn lemma_dirs_rows_all_open(d: Dir, prefix: Seq<char>, depth: nat, guides: Seq<bool>, env: WalkEnv, k: int)
    requires
        env.collapsed == Set::<Seq<char>>::empty(),
        0 <= k <= d.subdirs@.len(),
    ensures
        forall|x: int| 0 <= x < dirs_rows(d, prefix, depth, guides, env, k).len()
            && (#[trigger] dirs_rows(d, prefix, depth, guides, env, k)[x]).kind == NodeKind::Dir
            ==> dirs_rows(d, prefix, depth, guides, env, k)[x].expanded,
    decreases d, 2int, k,
{
    if k > 0 {
        let a = dirs_rows(d, prefix, depth, guides, env, k - 1);
        let last = k == d.subdirs@.len() + d.files@.len();
        let g = grouped_rows(d.subdirs@[k - 1].1, d.subdirs@[k - 1].0@, join_spec(prefix, d.subdirs@[k - 1].0@), depth, guides, last, env);
        lemma_dirs_rows_all_open(d, prefix, depth, guides, env, k - 1);
        lemma_grouped_all_open(d.subdirs@[k - 1].1, d.subdirs@[k - 1].0@, join_spec(prefix, d.subdirs@[k - 1].0@), depth, guides, last, env);
        assert forall|x: int| 0 <= x < (a + g).len() && (#[trigger] (a + g)[x]).kind == NodeKind::Dir implies (a + g)[x].expanded by {
            if x < a.len() {
                assert((a + g)[x] == a[x]);
            } else {
                assert((a + g)[x] == g[x - a.len()]);
            }
        }
    }
}

proof fn lemma_grouped_all_open(g: Dir, label: Seq<char>, path: Seq<char>, depth: nat, guides: Seq<bool>, last: bool, env: WalkEnv)
    requires
        env.collapsed == Set::<Seq<char>>::empty(),
    ensures
        forall|x: int| 0 <= x < grouped_rows(g, label, path, depth, guides, last, env).len()
            && (#[trigger] grouped_rows(g, label, path, depth, guides, last, env)[x]).kind == NodeKind::Dir
            ==> grouped_rows(g, label, path, depth, guides, last, env)[x].expanded,
    decreases g, 4int, 0int,
{
    if env.group && g.files@.len() == 0 && g.subdirs@.len() == 1 {
        let n = g.subdirs@[0].0@;
        lemma_grouped_all_open(g.subdirs@[0].1, label + seq!['/'] + n, join_spec(path, n), depth, guides, last, env);
    } else if env.filter.len() == 0 || dir_matches_spec(g, path, env.filter) {
        let rows = grouped_rows(g, label, path, depth, guides, last, env);
        let w = walk_spec(g, path, depth + 1, guides.push(last), env);
        lemma_walk_all_open(g, path, depth + 1, guides.push(last), env);
        assert forall|x: int| 0 <= x < rows.len() && (#[trigger] rows[x]).kind == NodeKind::Dir implies rows[x].expanded by {
            if x > 0 {
                assert(rows[x] == w[x - 1]);
            }
        }
    }
}

/// Opening everything leaves every directory row expanded.
pub proof fn opening_all_leaves_everything_open(pre: Tree, post: Tree, files: Seq<FileEntry>)
    requires
        reflowed(pre, post, Set::empty(), files),
    ensures
        forall|x: int| 0 <= x < post.node_list().len() && (#[trigger] post.node_list()[x]).kind == NodeKind::Dir ==> post.node_list()[x].expanded,
{
    let e = post.env(files);
    lemma_walk_all_open(post.root, Seq::empty(), 0, Seq::empty(), e);
    assert forall|x: int| 0 <= x < post.nodes@.len() && (#[trigger] post.nodes@[x]).kind == NodeKind::Dir implies post.nodes@[x].expanded by {
        assert(nodes_model(post.nodes@)[x] == post.nodes@[x]@);
    }
}

/// `A + B` has a directory row exactly when one of them does.
proof fn lemma_has_dir_concat(a: Seq<NodeModel>, b: Seq<NodeModel>)
    ensures
        has_dir_row(a + b) == (has_dir_row(a) || has_dir_row(b)),
{
    if has_dir_row(a + b) {
        let i = choose|i: int| 0 <= i < (a + b).len() && (#[trigger] (a + b)[i]).kind == NodeKind::Dir;
        if i < a.len() {
            assert(a[i] == (a + b)[i]);
        } else {
            assert(b[i - a.len()] == (a + b)[i]);
        }
    }
    if has_dir_row(a) {
        let i = choose|i: int| 0 <= i < a.len() && (#[trigger] a[i]).kind == NodeKind::Dir;
        assert((a + b)[i] == a[i]);
    }
    if has_dir_row(b) {
        let i = choose|i: int| 0 <= i < b.len() && (#[trigger] b[i]).kind == NodeKind::Dir;
        assert((a + b)[a.len() + i] == b[i]);
    }
}

/// Whether a directory shows at all depends on the filter and the
/// grouping, not on what is folded, and its own row comes first.
proof fn lemma_grouped_shown(
    g: Dir,
    label: Seq<char>,
    path: Seq<char>,
    depth: nat,
    guides: Seq<bool>,
    last_child: bool,
    e1: WalkEnv,
    e2: WalkEnv,
)
    requires
        e1.filter == e2.filter,
        e1.group == e2.group,
    ensures
        has_dir_row(grouped_rows(g, label, path, depth, guides, last_child, e1)) == has_dir_row(
            grouped_rows(g, label, path, depth, guides, last_child, e2),
        ),
    decreases g, 4int, 0int,
{
    if e1.group && g.files@.len() == 0 && g.subdirs@.len() == 1 {
        let n = g.subdirs@[0].0@;
        lemma_grouped_shown(g.subdirs@[0].1, label + seq!['/'] + n, join_spec(path, n), depth, guides, last_child, e1, e2);
    } else if !(e1.filter.len() == 0 || dir_matches_spec(g, path, e1.filter)) {
    } else {
        assert(grouped_rows(g, label, path, depth, guides, last_child, e1)[0].kind == NodeKind::Dir);
        assert(grouped_rows(g, label, path, depth, guides, last_child, e2)[0].kind == NodeKind::Dir);
    }
}

proof fn lemma_dirs_shown(d: Dir, prefix: Seq<char>, depth: nat, guides: Seq<bool>, e1: WalkEnv, e2: WalkEnv, k: int)
    requires
        e1.filter == e2.filter,
        e1.group == e2.group,
    ensures
        has_dir_row(dirs_rows(d, prefix, depth, guides, e1, k)) == has_dir_row(dirs_rows(d, prefix, depth, guides, e2, k)),
    decreases k,
{
    if k <= 0 || k > d.subdirs@.len() {
        assert(dirs_rows(d, prefix, depth, guides, e1, k).len() == 0);
        assert(dirs_rows(d, prefix, depth, guides, e2, k).len() == 0);
    } else {
        lemma_dirs_shown(d, prefix, depth, guides, e1, e2, k - 1);
        let lc = k == d.subdirs@.len() + d.files@.len();
        let name = d.subdirs@[k - 1].0@;
        let g = d.subdirs@[k - 1].1;
        lemma_grouped_shown(g, name, join_spec(prefix, name), depth, guides, lc, e1, e2);
        lemma_has_dir_concat(
            dirs_rows(d, prefix, depth, guides, e1, k - 1),
            grouped_rows(g, name, join_spec(prefix, name), depth, guides, lc, e1),
        );
        lemma_has_dir_concat(
            dirs_rows(d, prefix, depth, guides, e2, k - 1),
            grouped_rows(g, name, join_spec(prefix, name), depth, guides, lc, e2),
        );
    }
}

/// A tree walk shows a directory row or not regardless of what is folded.
proof fn lemma_walk_shown(d: Dir, e1: WalkEnv, e2: WalkEnv)
    requires
        e1.filter == e2.filter,
        e1.group == e2.group,
    ensures
        has_dir_row(walk_spec(d, Seq::empty(), 0, Seq::empty(), e1)) == has_dir_row(
            walk_spec(d, Seq::empty(), 0, Seq::empty(), e2),
        ),
{
    let s = d.subdirs@.len() as int;
    let f = d.files@.len() as int;
    lemma_dirs_shown(d, Seq::empty(), 0, Seq::empty(), e1, e2, s);
    lemma_files_rows_are_files(d, Seq::empty(), 0, Seq::empty(), e1, f);
    lemma_files_rows_are_files(d, Seq::empty(), 0, Seq::empty(), e2, f);
    let f1 = files_rows(d, Seq::empty(), 0, Seq::empty(), e1, f);
    let f2 = files_rows(d, Seq::empty(), 0, Seq::empty(), e2, f);
    assert(!has_dir_row(f1)) by {
        if has_dir_row(f1) {
            let i = choose|i: int| 0 <= i < f1.len() && (#[trigger] f1[i]).kind == NodeKind::Dir;
            assert(f1[i].kind is File);
        }
    }
    assert(!has_dir_row(f2)) by {
        if has_dir_row(f2) {
            let i = choose|i: int| 0 <= i < f2.len() && (#[trigger] f2[i]).kind == NodeKind::Dir;
            assert(f2[i].kind is File);
        }
    }
    lemma_has_dir_concat(dirs_rows(d, Seq::empty(), 0, Seq::empty(), e1, s), f1);
    lemma_has_dir_concat(dirs_rows(d, Seq::empty(), 0, Seq::empty(), e2, s), f2);
}

/// From a tree with nothing folded and some directory row, toggling all
/// closes everything, and toggling all again opens everything and brings
/// back the rows the tree showed.
pub proof fn toggling_all_twice_restores(
    t0: Tree,
    t1: Tree,
    t2: Tree,
    files: Seq<FileEntry>,
    r1: Option<bool>,
    r2: Option<bool>,
)
    requires
        nodes_model(t0.node_list()) == t0.rows(files),
        t0.collapsed_paths() == Set::<Seq<char>>::empty(),
        has_dir_row(nodes_model(t0.node_list())),
        toggled_all(t0, t1, files, r1),
        toggled_all(t1, t2, files, r2),
    ensures
        r1 == Some(false),
        r2 == Some(true),
        t2.collapsed_paths() == t0.collapsed_paths(),
        nodes_model(t2.node_list()) == nodes_model(t0.node_list()),
{
    let rows0 = nodes_model(t0.node_list());
    lemma_walk_all_open(t0.root, Seq::empty(), 0, Seq::empty(), t0.env(files));
    let i = choose|i: int| 0 <= i < rows0.len() && (#[trigger] rows0[i]).kind == NodeKind::Dir;
    assert(rows0[i].expanded);
    assert(has_open_dir_row(rows0));
    closing_all_leaves_nothing_open(t0, t1, files, files);
    lemma_walk_shown(t0.root, t0.env(files), t1.env(files));
    assert(has_dir_row(nodes_model(t1.node_list())));
    assert(t2.env(files) == t0.env(files));
}

} // verus!
