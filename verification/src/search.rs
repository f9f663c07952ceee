//! Grep backends for the `<leader>k` / `<leader>fw` pickers.
//!
//! When the right-hand pane is the working tree -- the common case -- ripgrep
//! runs with the same flags as the user's telescope `vimgrep_arguments`, so
//! results match what telescope would show. For revision-to-revision diffs the
//! files may not exist on disk at all, so a smart-case substring scan over the
//! blobs already fetched stands in.
use vstd::prelude::*;
use crate::git::{Spec, SpecModel};
use crate::text::{
    contains, contains_spec, folds_case, has_uppercase, lines, lines_of, lowercase_of, owned,
    parse_usize, parse_usize_spec, split_once, split_once_spec, to_lowercase, trim_start,
    trim_start_spec,
};

verus! {

/// One grep hit.
#[derive(Debug)]
pub struct Hit {
    pub path: String,
    pub line: usize,
    pub text: String,
}

/// A `Hit` as mathematical values.
pub struct HitModel {
    pub path: Seq<char>,
    pub line: nat,
    pub text: Seq<char>,
}

impl View for Hit {
    type V = HitModel;

    open spec fn view(&self) -> HitModel {
        HitModel { path: self.path@, line: self.line as nat, text: self.text@ }
    }
}

impl Clone for Hit {
    fn clone(&self) -> (r: Self)
        ensures
            r@ == self@,
    {
        Hit { path: self.path.clone(), line: self.line, text: self.text.clone() }
    }
}

pub open spec fn hits_model(v: Seq<Hit>) -> Seq<HitModel> {
    Seq::new(v.len(), |i: int| v[i]@)
}

/// Cap on results, matching telescope's practical limit. Past this the picker
/// stops being a picker.
pub const MAX_HITS: usize = 2000;

/// argv has a size limit; ripgrep gets paths in batches well under it.
pub const PATH_BATCH: usize = 256;

pub open spec fn rg_args_spec() -> Seq<Seq<char>> {
    seq![
        "--color=never"@,
        "--no-heading"@,
        "--with-filename"@,
        "--line-number"@,
        "--column"@,
        "--smart-case"@,
        "--hidden"@,
        "--glob"@,
        "!**/.git/*"@,
        "--trim"@,
    ]
}

/// The flags mirror the user's telescope `vimgrep_arguments`.
pub fn rg_args() -> (r: Vec<&'static str>)
    ensures
        r@.len() == rg_args_spec().len(),
        forall|i: int| 0 <= i < r@.len() ==> #[trigger] r@[i]@ == rg_args_spec()[i],
{
    let v: Vec<&'static str> = vec![
        "--color=never",
        "--no-heading",
        "--with-filename",
        "--line-number",
        "--column",
        "--smart-case",
        "--hidden",
        "--glob",
        "!**/.git/*",
        "--trim",
    ];
    v
}

/// Is ripgrep usable for this comparison? Only when the right side is the
/// working tree, and `rg_found` says whether `rg --version` ran.
pub fn uses_ripgrep(spec: &Spec, rg_found: bool) -> (r: bool)
    ensures
        r == ((spec@ is Worktree || spec@ is Rev) && rg_found),
{
    match spec {
        Spec::Worktree | Spec::Rev(_) => rg_found,
        _ => false,
    }
}

/// One `path:line:col:text` record: the first three colons are the
/// separators, the column must be a number, and the text keeps any colons.
pub open spec fn parse_vimgrep_spec(line: Seq<char>) -> Option<HitModel> {
    match split_once_spec(line, ':') {
        None => None,
        Some((path, rest)) => match split_once_spec(rest, ':') {
            None => None,
            Some((lno, rest2)) => match split_once_spec(rest2, ':') {
                None => None,
                Some((col, text)) => match (parse_usize_spec(col), parse_usize_spec(lno)) {
                    (Some(_), Some(n)) => Some(HitModel { path, line: n as nat, text }),
                    _ => None,
                },
            },
        },
    }
}

/// Parse one `path:line:col:text` record.
///
/// Splitting from the left would break on a path containing colons, but
/// ripgrep echoes back the repo-relative POSIX paths we hand it, so the first
/// three colons are ours. The column is parsed only to locate the text.
pub fn parse_vimgrep(line: &str) -> (r: Option<Hit>)
    ensures
        match r {
            Some(h) => parse_vimgrep_spec(line@) == Some(h@),
            None => parse_vimgrep_spec(line@) is None,
        },
{
    let (path, rest) = match split_once(line, ':') {
        Some(p) => p,
        None => return None,
    };
    let (lno, rest) = match split_once(rest, ':') {
        Some(p) => p,
        None => return None,
    };
    let (col, text) = match split_once(rest, ':') {
        Some(p) => p,
        None => return None,
    };
    if parse_usize(col).is_none() {
        return None;
    }
    match parse_usize(lno) {
        Some(n) => Some(Hit { path: owned(path), line: n, text: owned(text) }),
        None => None,
    }
}

/// Appends the hits of one batch of ripgrep output, stopping at the cap.
pub fn add_rg_output(hits: &mut Vec<Hit>, stdout: &str)
    requires
        old(hits)@.len() <= MAX_HITS,
    ensures
        final(hits)@.len() <= MAX_HITS,
        hits_model(final(hits)@) == hits_model(old(hits)@) + rg_hits_spec(lines_of(stdout@)).take(
            final(hits)@.len() - old(hits)@.len(),
        ),
        final(hits)@.len() == (if old(hits)@.len() + rg_hits_spec(lines_of(stdout@)).len() <= MAX_HITS {
            old(hits)@.len() + rg_hits_spec(lines_of(stdout@)).len()
        } else {
            MAX_HITS as nat
        }),
{
    let ls = lines(stdout);
    let ghost all = rg_hits_spec(lines_of(stdout@));
    let ghost base = hits_model(hits@);
    let ghost n0 = hits@.len();
    let mut i: usize = 0;
    while i < ls.len() && hits.len() < MAX_HITS
        invariant
            ls@.len() == lines_of(stdout@).len(),
            forall|k: int| 0 <= k < ls@.len() ==> #[trigger] ls@[k]@ == lines_of(stdout@)[k],
            i <= ls.len(),
            n0 <= hits@.len() <= MAX_HITS,
            base == hits_model(old(hits)@),
            n0 == old(hits)@.len(),
            hits_model(hits@) == base + rg_hits_spec(lines_of(stdout@).take(i as int)),
            hits@.len() - n0 == rg_hits_spec(lines_of(stdout@).take(i as int)).len(),
        decreases ls.len() - i,
    {
        let ghost prev = hits_model(hits@);
        assert(lines_of(stdout@).take(i + 1).drop_last() =~= lines_of(stdout@).take(i as int));
        assert(lines_of(stdout@).take(i + 1).last() == ls@[i as int]@);
        match parse_vimgrep(ls[i].as_str()) {
            Some(hit) => {
                hits.push(hit);
                proof {
                    assert(hits_model(hits@) =~= prev.push(hit@));
                }
            },
            None => {},
        }
        i = i + 1;
    }
    proof {
        lemma_rg_hits_prefix(lines_of(stdout@), i as int);
        if i >= ls.len() {
            assert(lines_of(stdout@).take(i as int) =~= lines_of(stdout@));
        }
        assert(all.take(hits@.len() - n0) =~= rg_hits_spec(lines_of(stdout@).take(i as int)));
    }
}

/// The hits of ripgrep's output lines, in order.
pub open spec fn rg_hits_spec(ls: Seq<Seq<char>>) -> Seq<HitModel>
    decreases ls.len(),
{
    if ls.len() == 0 {
        Seq::empty()
    } else {
        match parse_vimgrep_spec(ls.last()) {
            Some(h) => rg_hits_spec(ls.drop_last()).push(h),
            None => rg_hits_spec(ls.drop_last()),
        }
    }
}

proof fn lemma_rg_hits_prefix(ls: Seq<Seq<char>>, i: int)
    requires
        0 <= i <= ls.len(),
    ensures
        rg_hits_spec(ls.take(i)).len() <= rg_hits_spec(ls).len(),
        rg_hits_spec(ls) .take(rg_hits_spec(ls.take(i)).len() as int) == rg_hits_spec(ls.take(i)),
    decreases ls.len() - i,
{
    if i < ls.len() {
        lemma_rg_hits_prefix(ls, i + 1);
        assert(ls.take(i + 1).drop_last() =~= ls.take(i));
        let a = rg_hits_spec(ls.take(i));
        let b = rg_hits_spec(ls.take(i + 1));
        assert(b.take(a.len() as int) =~= a);
        assert(rg_hits_spec(ls).take(a.len() as int) =~= b.take(a.len() as int));
    } else {
        assert(ls.take(i) =~= ls);
        assert(rg_hits_spec(ls).take(rg_hits_spec(ls).len() as int) =~= rg_hits_spec(ls));
    }
}

/// A line matches the query under smart case: an all-lowercase query is
/// compared against the lowercased line, any other query as written.
pub open spec fn line_matches(query: Seq<char>, line: Seq<char>) -> bool {
    if folds_case(query) {
        contains_spec(lowercase_of(line), lowercase_of(query))
    } else {
        contains_spec(line, query)
    }
}

/// The hits of one file's lines, numbered from one, in order.
pub open spec fn file_hits(query: Seq<char>, path: Seq<char>, ls: Seq<Seq<char>>) -> Seq<HitModel>
    decreases ls.len(),
{
    if ls.len() == 0 {
        Seq::empty()
    } else {
        let before = file_hits(query, path, ls.drop_last());
        if line_matches(query, ls.last()) {
            before.push(HitModel { path, line: ls.len() as nat, text: trim_start_spec(ls.last()) })
        } else {
            before
        }
    }
}

/// The hits of every source, file after file.
pub open spec fn memory_hits(query: Seq<char>, sources: Seq<(Seq<char>, Seq<char>)>) -> Seq<HitModel>
    decreases sources.len(),
{
    if sources.len() == 0 {
        Seq::empty()
    } else {
        memory_hits(query, sources.drop_last()) + file_hits(
            query,
            sources.last().0,
            lines_of(sources.last().1),
        )
    }
}

pub open spec fn sources_model(sources: Seq<(String, String)>) -> Seq<(Seq<char>, Seq<char>)> {
    Seq::new(sources.len(), |i: int| (sources[i].0@, sources[i].1@))
}

/// What `in_memory` returns: nothing for an empty query, else the first
/// `MAX_HITS` hits.
pub open spec fn in_memory_spec(query: Seq<char>, sources: Seq<(Seq<char>, Seq<char>)>) -> Seq<HitModel> {
    if query.len() == 0 {
        Seq::empty()
    } else {
        let all = memory_hits(query, sources);
        if all.len() <= MAX_HITS {
            all
        } else {
            all.take(MAX_HITS as int)
        }
    }
}

pub open spec fn prefix_of<T>(a: Seq<T>, b: Seq<T>) -> bool {
    a.len() <= b.len() && b.take(a.len() as int) == a
}

proof fn lemma_prefix_trans<T>(a: Seq<T>, b: Seq<T>, c: Seq<T>)
    requires
        prefix_of(a, b),
        prefix_of(b, c),
    ensures
        prefix_of(a, c),
{
    assert(c.take(a.len() as int) =~= b.take(a.len() as int));
}

proof fn lemma_prefix_append<T>(a: Seq<T>, b: Seq<T>, c: Seq<T>)
    requires
        prefix_of(b, c),
    ensures
        prefix_of(a + b, a + c),
{
    assert((a + c).take((a + b).len() as int) =~= a + b);
}

proof fn lemma_file_hits_prefix(query: Seq<char>, path: Seq<char>, ls: Seq<Seq<char>>, j: int)
    requires
        0 <= j <= ls.len(),
    ensures
        prefix_of(file_hits(query, path, ls.take(j)), file_hits(query, path, ls)),
    decreases ls.len() - j,
{
    if j < ls.len() {
        lemma_file_hits_prefix(query, path, ls, j + 1);
        assert(ls.take(j + 1).drop_last() =~= ls.take(j));
        let a = file_hits(query, path, ls.take(j));
        let b = file_hits(query, path, ls.take(j + 1));
        assert(b.take(a.len() as int) =~= a);
        lemma_prefix_trans(a, b, file_hits(query, path, ls));
    } else {
        assert(ls.take(j) =~= ls);
        let f = file_hits(query, path, ls);
        assert(f.take(f.len() as int) =~= f);
    }
}

proof fn lemma_memory_hits_prefix(query: Seq<char>, srcs: Seq<(Seq<char>, Seq<char>)>, k: int)
    requires
        0 <= k <= srcs.len(),
    ensures
        prefix_of(memory_hits(query, srcs.take(k)), memory_hits(query, srcs)),
    decreases srcs.len() - k,
{
    if k < srcs.len() {
        lemma_memory_hits_prefix(query, srcs, k + 1);
        assert(srcs.take(k + 1).drop_last() =~= srcs.take(k));
        let a = memory_hits(query, srcs.take(k));
        let b = memory_hits(query, srcs.take(k + 1));
        assert(b.take(a.len() as int) =~= a);
        lemma_prefix_trans(a, b, memory_hits(query, srcs));
    } else {
        assert(srcs.take(k) =~= srcs);
        let f = memory_hits(query, srcs);
        assert(f.take(f.len() as int) =~= f);
    }
}

/// What has been found after `j` lines of source `k` is a prefix of all hits.
proof fn lemma_progress_prefix(query: Seq<char>, srcs: Seq<(Seq<char>, Seq<char>)>, k: int, j: int)
    requires
        0 <= k < srcs.len(),
        0 <= j <= lines_of(srcs[k].1).len(),
    ensures
        prefix_of(
            memory_hits(query, srcs.take(k)) + file_hits(query, srcs[k].0, lines_of(srcs[k].1).take(j)),
            memory_hits(query, srcs),
        ),
{
    let ls = lines_of(srcs[k].1);
    let before = memory_hits(query, srcs.take(k));
    lemma_file_hits_prefix(query, srcs[k].0, ls, j);
    lemma_prefix_append(before, file_hits(query, srcs[k].0, ls.take(j)), file_hits(query, srcs[k].0, ls));
    assert(srcs.take(k + 1).drop_last() =~= srcs.take(k));
    assert(srcs.take(k + 1).last() == srcs[k]);
    assert(memory_hits(query, srcs.take(k + 1)) == before + file_hits(query, srcs[k].0, ls));
    lemma_memory_hits_prefix(query, srcs, k + 1);
    lemma_prefix_trans(
        before + file_hits(query, srcs[k].0, ls.take(j)),
        memory_hits(query, srcs.take(k + 1)),
        memory_hits(query, srcs),
    );
}

/// Smart-case substring scan, used when the content is not on disk.
///
/// `sources` is `(path, contents)`.
pub fn in_memory(query: &str, sources: &[(String, String)]) -> (r: Vec<Hit>)
    ensures
        hits_model(r@) == in_memory_spec(query@, sources_model(sources@)),
{
    let ghost srcs = sources_model(sources@);
    let ghost all = memory_hits(query@, srcs);
    let mut hits: Vec<Hit> = Vec::new();
    if query.is_empty() {
        proof {
            assert(hits_model(hits@) =~= Seq::<HitModel>::empty());
        }
        return hits;
    }
    let fold = !has_uppercase(query);
    let needle = if fold { to_lowercase(query) } else { owned(query) };
    let mut k: usize = 0;
    while k < sources.len()
        invariant
            srcs == sources_model(sources@),
            all == memory_hits(query@, srcs),
            query@.len() > 0,
            fold == folds_case(query@),
            needle@ == (if fold { lowercase_of(query@) } else { query@ }),
            k <= sources@.len(),
            hits@.len() <= MAX_HITS,
            hits_model(hits@) == memory_hits(query@, srcs.take(k as int)),
        decreases sources@.len() - k,
    {
        let path = &sources[k].0;
        let ls = lines(sources[k].1.as_str());
        let ghost before = memory_hits(query@, srcs.take(k as int));
        let ghost lsm = lines_of(srcs[k as int].1);
        let mut j: usize = 0;
        while j < ls.len()
            invariant
                srcs == sources_model(sources@),
                all == memory_hits(query@, srcs),
                query@.len() > 0,
                fold == folds_case(query@),
                needle@ == (if fold { lowercase_of(query@) } else { query@ }),
                k < sources@.len(),
                path@ == srcs[k as int].0,
                lsm == lines_of(srcs[k as int].1),
                ls@.len() == lsm.len(),
                forall|t: int| 0 <= t < ls@.len() ==> #[trigger] ls@[t]@ == lsm[t],
                j <= ls.len(),
                hits@.len() <= MAX_HITS,
                before == memory_hits(query@, srcs.take(k as int)),
                hits_model(hits@) == before + file_hits(query@, path@, lsm.take(j as int)),
            decreases ls.len() - j,
        {
            if hits.len() >= MAX_HITS {
                proof {
                    lemma_progress_prefix(query@, srcs, k as int, j as int);
                }
                return hits;
            }
            let line = ls[j].as_str();
            let hay = if fold { to_lowercase(line) } else { owned(line) };
            let ghost prev = hits_model(hits@);
            assert(lsm.take(j + 1).drop_last() =~= lsm.take(j as int));
            assert(lsm.take(j + 1).last() == line@);
            if contains(hay.as_str(), needle.as_str()) {
                let hit = Hit { path: path.clone(), line: j + 1, text: owned(trim_start(line)) };
                hits.push(hit);
                proof {
                    assert(hits_model(hits@) =~= prev.push(hit@));
                }
            }
            j = j + 1;
        }
        proof {
            assert(lsm.take(j as int) =~= lsm);
            assert(srcs.take(k + 1).drop_last() =~= srcs.take(k as int));
            assert(srcs.take(k + 1).last() == srcs[k as int]);
        }
        k = k + 1;
    }
    proof {
        assert(srcs.take(k as int) =~= srcs);
    }
    hits
}

pub open spec fn strings_model(v: Seq<String>) -> Seq<Seq<char>> {
    Seq::new(v.len(), |i: int| v[i]@)
}

pub open spec fn argvs_model(v: Seq<Vec<String>>) -> Seq<Seq<Seq<char>>> {
    Seq::new(v.len(), |i: int| strings_model(v[i]@))
}

/// `paths` cut into runs of `PATH_BATCH`, in order; the last may be shorter.
pub open spec fn batches_spec(paths: Seq<Seq<char>>) -> Seq<Seq<Seq<char>>>
    decreases paths.len(),
{
    if paths.len() == 0 {
        Seq::empty()
    } else if paths.len() <= PATH_BATCH {
        seq![paths]
    } else {
        seq![paths.take(PATH_BATCH as int)] + batches_spec(paths.skip(PATH_BATCH as int))
    }
}

/// The ripgrep argument list for one batch: the fixed flags, the query after
/// `-e`, then `--` and the paths.
pub open spec fn rg_argv_spec(query: Seq<char>, batch: Seq<Seq<char>>) -> Seq<Seq<char>> {
    rg_args_spec() + seq!["-e"@, query, "--"@] + batch
}

/// The ripgrep runs for a search, in the order they are made: none for an
/// empty query or no paths, else one per batch of paths.
pub open spec fn rg_plan_spec(query: Seq<char>, paths: Seq<Seq<char>>) -> Seq<Seq<Seq<char>>> {
    if query.len() == 0 || paths.len() == 0 {
        Seq::empty()
    } else {
        let b = batches_spec(paths);
        Seq::new(b.len(), |i: int| rg_argv_spec(query, b[i]))
    }
}

fn rg_argv(query: &str, paths: &[String], lo: usize, hi: usize) -> (r: Vec<String>)
    requires
        lo <= hi <= paths@.len(),
    ensures
        strings_model(r@) == rg_argv_spec(query@, strings_model(paths@).subrange(lo as int, hi as int)),
{
    let flags = rg_args();
    let mut out: Vec<String> = Vec::new();
    let mut i: usize = 0;
    while i < flags.len()
        invariant
            flags@.len() == rg_args_spec().len(),
            forall|t: int| 0 <= t < flags@.len() ==> #[trigger] flags@[t]@ == rg_args_spec()[t],
            i <= flags.len(),
            strings_model(out@) == rg_args_spec().take(i as int),
        decreases flags.len() - i,
    {
        let ghost prev = strings_model(out@);
        out.push(owned(flags[i]));
        proof {
            assert(strings_model(out@) =~= prev.push(rg_args_spec()[i as int]));
            assert(rg_args_spec().take(i + 1) =~= rg_args_spec().take(i as int).push(rg_args_spec()[i as int]));
        }
        i = i + 1;
    }
    assert(rg_args_spec().take(i as int) =~= rg_args_spec());
    let ghost base = strings_model(out@);
    out.push(owned("-e"));
    out.push(owned(query));
    out.push(owned("--"));
    proof {
        assert(strings_model(out@) =~= base + seq!["-e"@, query@, "--"@]);
    }
    let ghost head = strings_model(out@);
    let mut k: usize = lo;
    while k < hi
        invariant
            lo <= k <= hi <= paths@.len(),
            strings_model(out@) == head + strings_model(paths@).subrange(lo as int, k as int),
        decreases hi - k,
    {
        let ghost prev = strings_model(out@);
        out.push(paths[k].clone());
        proof {
            assert(strings_model(out@) =~= prev.push(paths@[k as int]@));
            assert(strings_model(paths@).subrange(lo as int, k + 1) =~= strings_model(paths@).subrange(lo as int, k as int).push(paths@[k as int]@));
        }
        k = k + 1;
    }
    out
}

proof fn lemma_batches_step(paths: Seq<Seq<char>>, i: int)
    requires
        0 <= i < paths.len(),
    ensures
        batches_spec(paths.skip(i)) == seq![paths.subrange(i, if i + PATH_BATCH < paths.len() { i + PATH_BATCH } else { paths.len() as int })]
            + batches_spec(paths.skip(if i + PATH_BATCH < paths.len() { i + PATH_BATCH } else { paths.len() as int })),
{
    let rest = paths.skip(i);
    if rest.len() <= PATH_BATCH {
        assert(rest =~= paths.subrange(i, paths.len() as int));
        assert(paths.skip(paths.len() as int).len() == 0);
        assert(batches_spec(paths.skip(paths.len() as int)) =~= Seq::<Seq<Seq<char>>>::empty());
        assert(batches_spec(rest) =~= seq![rest] + Seq::<Seq<Seq<char>>>::empty());
    } else {
        assert(rest.take(PATH_BATCH as int) =~= paths.subrange(i, i + PATH_BATCH));
        assert(rest.skip(PATH_BATCH as int) =~= paths.skip(i + PATH_BATCH));
    }
}

/// The argument lists of the ripgrep runs for `query` over `paths`.
pub fn rg_plan(query: &str, paths: &[String]) -> (r: Vec<Vec<String>>)
    ensures
        argvs_model(r@) == rg_plan_spec(query@, strings_model(paths@)),
{
    let mut out: Vec<Vec<String>> = Vec::new();
    let ghost ps = strings_model(paths@);
    if query.is_empty() || paths.len() == 0 {
        proof {
            assert(argvs_model(out@) =~= Seq::<Seq<Seq<char>>>::empty());
        }
        return out;
    }
    let ghost b = batches_spec(ps);
    let mut i: usize = 0;
    proof {
        assert(ps.skip(0) =~= ps);
        assert(argvs_model(out@) + Seq::new(b.len(), |t: int| rg_argv_spec(query@, b[t])) =~= Seq::new(b.len(), |t: int| rg_argv_spec(query@, b[t])));
    }
    while i < paths.len()
        invariant
            ps == strings_model(paths@),
            b == batches_spec(ps),
            query@.len() > 0,
            i <= paths@.len(),
            argvs_model(out@) + Seq::new(batches_spec(ps.skip(i as int)).len(), |t: int| rg_argv_spec(query@, batches_spec(ps.skip(i as int))[t]))
                == Seq::new(b.len(), |t: int| rg_argv_spec(query@, b[t])),
        decreases paths@.len() - i,
    {
        let hi: usize = if paths.len() - i > PATH_BATCH { i + PATH_BATCH } else { paths.len() };
        proof {
            lemma_batches_step(ps, i as int);
        }
        let argv = rg_argv(query, paths, i, hi);
        let ghost prev = argvs_model(out@);
        let ghost cur = batches_spec(ps.skip(i as int));
        let ghost nxt = batches_spec(ps.skip(hi as int));
        out.push(argv);
        proof {
            assert(argvs_model(out@) =~= prev.push(rg_argv_spec(query@, ps.subrange(i as int, hi as int))));
            assert(Seq::new(cur.len(), |t: int| rg_argv_spec(query@, cur[t])) =~= seq![rg_argv_spec(query@, ps.subrange(i as int, hi as int))]
                + Seq::new(nxt.len(), |t: int| rg_argv_spec(query@, nxt[t])));
            assert(argvs_model(out@) + Seq::new(nxt.len(), |t: int| rg_argv_spec(query@, nxt[t]))
                =~= prev + Seq::new(cur.len(), |t: int| rg_argv_spec(query@, cur[t])));
        }
        i = hi;
    }
    proof {
        assert(ps.skip(i as int).len() == 0);
        assert(batches_spec(ps.skip(i as int)).len() == 0);
        assert(argvs_model(out@) =~= argvs_model(out@) + Seq::new(batches_spec(ps.skip(i as int)).len(), |t: int| rg_argv_spec(query@, batches_spec(ps.skip(i as int))[t])));
    }
    out
}

} // verus!
