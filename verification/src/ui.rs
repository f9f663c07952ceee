//! The pure parts of rendering: search highlights, gutter width, key
//! descriptions for the help screen and overlay geometry.
use vstd::prelude::*;
use unicode_width::UnicodeWidthChar;
use crate::diff::{rows_model, Document, RowModel};
use crate::keys::Action;
use crate::sort::{pair_leq, sort_pairs};
use vstd::utf8::{decode_utf8, encode_utf8, is_char_boundary};
use vstd::string::StrSliceExecFns;
use crate::text::{
    byte_slice, slice_spec, str_len,
    bytes_of, decimal_spec, find_bytes, first_occurrence_from, folds_case, has_uppercase, occurs_at,
    lowercase_of, push_decimal, to_lowercase,
};

verus! {

/// Matches the user's `set tabstop=4`.
pub const TABSTOP: usize = 4;

// ------------------------------------------------------------ search hits

/// The first position at or after `from` where `needle` occurs in `hay`.
pub open spec fn first_at(hay: Seq<u8>, needle: Seq<u8>, from: int) -> Option<int>
    decreases hay.len() + 1 - from,
{
    if from < 0 || from + needle.len() > hay.len() {
        None
    } else if occurs_at(hay, needle, from) {
        Some(from)
    } else {
        first_at(hay, needle, from + 1)
    }
}

proof fn lemma_first_at(hay: Seq<u8>, needle: Seq<u8>, from: int, r: Option<usize>)
    requires
        0 <= from,
        first_occurrence_from(hay, needle, from, r),
    ensures
        first_at(hay, needle, from) == match r {
            Some(i) => Some(i as int),
            None => None,
        },
    decreases hay.len() + 1 - from,
{
    if from + needle.len() <= hay.len() && !occurs_at(hay, needle, from) {
        if let Some(i) = r {
            assert(i != from);
        }
        lemma_first_at(hay, needle, from + 1, r);
    }
}

/// The non-overlapping occurrences of `needle` in `hay` from byte `from`
/// on, each as a `(start, end)` byte range, scanning left to right.
pub open spec fn occurrences(hay: Seq<u8>, needle: Seq<u8>, from: int) -> Seq<(usize, usize)>
    decreases hay.len() + 1 - from,
{
    if needle.len() == 0 || from < 0 || from > hay.len() {
        Seq::empty()
    } else {
        match first_at(hay, needle, from) {
            Some(s) => if from <= s && s + needle.len() <= hay.len() {
                seq![(s as usize, (s + needle.len()) as usize)] + occurrences(hay, needle, s + needle.len())
            } else {
                Seq::empty()
            },
            None => Seq::empty(),
        }
    }
}

/// Where `query` occurs in `text`, as byte ranges: case-insensitive when
/// the query has no uppercase letter, like vim's `smartcase`; nothing when
/// folding would change the text's length in bytes, since the ranges would
/// then point at the wrong columns.
pub open spec fn find_all_spec(text: Seq<char>, query: Seq<char>) -> Seq<(usize, usize)> {
    if query.len() == 0 {
        Seq::empty()
    } else {
        let fold = folds_case(query);
        let hay: Seq<char> = if fold { lowercase_of(text) } else { text };
        let needle: Seq<char> = if fold { lowercase_of(query) } else { query };
        if encoded_len(hay) != encoded_len(text) {
            Seq::empty()
        } else {
            occurrences(encoded(hay), encoded(needle), 0)
        }
    }
}

/// The UTF-8 bytes of a string with these characters.
pub open spec fn encoded(s: Seq<char>) -> Seq<u8> {
    vstd::utf8::encode_utf8(s)
}

pub open spec fn encoded_len(s: Seq<char>) -> nat {
    encoded(s).len()
}

/// Case-insensitive when the query is all lowercase, like vim's `smartcase`.
pub fn find_all(text: &str, query: &str) -> (r: Vec<(usize, usize)>)
    ensures
        r@ == find_all_spec(text@, query@),
{
    let mut out: Vec<(usize, usize)> = Vec::new();
    if query.is_empty() {
        return out;
    }
    let fold = !has_uppercase(query);
    let hay = if fold {
        to_lowercase(text)
    } else {
        crate::text::owned(text)
    };
    let needle = if fold {
        to_lowercase(query)
    } else {
        crate::text::owned(query)
    };
    let hb = bytes_of(hay.as_str());
    let tb = bytes_of(text);
    let nb = bytes_of(needle.as_str());
    proof {
        assert(nb@.len() > 0) by {
            assert(needle@.len() > 0);
            assert(nb@ == vstd::utf8::encode_utf8(needle@));
            assert(vstd::utf8::encode_utf8(needle@) =~= vstd::utf8::encode_scalar(needle@[0] as u32) + vstd::utf8::encode_utf8(needle@.drop_first()));
        }
    }
    // Folding can change byte length for non-ASCII, which would misplace the
    // highlight; skip it rather than paint the wrong columns.
    if hb.len() != tb.len() {
        return out;
    }
    let mut from: usize = 0;
    let hlen = hb.len();
    loop
        invariant
            hlen == hb@.len(),
            from <= hb@.len(),
            nb@.len() > 0,
            out@ + occurrences(hb@, nb@, from as int) == occurrences(hb@, nb@, 0),
        ensures
            out@ == occurrences(hb@, nb@, 0),
        decreases hb@.len() + 1 - from,
    {
        let found = find_bytes(&hb, &nb, from);
        match found {
            Some(s) => {
                proof {
                    lemma_first_at(hb@, nb@, from as int, found);
                    assert(occurs_at(hb@, nb@, s as int));
                    assert(s + nb@.len() <= hb@.len());
                }
                let e = s + nb.len();
                assert(e <= hlen);
                let ghost before = out@;
                out.push((s, e));
                proof {
                    assert(occurrences(hb@, nb@, from as int) =~= seq![(s, e)] + occurrences(hb@, nb@, e as int));
                    assert(out@ + occurrences(hb@, nb@, e as int) =~= before + occurrences(hb@, nb@, from as int));
                }
                from = e;
            },
            None => {
                proof {
                    lemma_first_at(hb@, nb@, from as int, found);
                    assert(out@ + occurrences(hb@, nb@, from as int) =~= out@);
                }
                break;
            },
        }
    }
    out
}

// ------------------------------------------------------------- the gutter

/// The larger line number of a row's two sides, 0 for a missing side.
pub open spec fn row_number(r: RowModel) -> nat {
    let a: nat = match r.old {
        Some(c) => c.number,
        None => 0,
    };
    let b: nat = match r.new {
        Some(c) => c.number,
        None => 0,
    };
    if a >= b { a } else { b }
}

/// The largest line number shown, or 1 for no rows.
pub open spec fn max_number(rows: Seq<RowModel>) -> nat
    decreases rows.len(),
{
    if rows.len() == 0 {
        1
    } else if rows.len() == 1 {
        row_number(rows[0])
    } else {
        let m = max_number(rows.drop_last());
        let x = row_number(rows.last());
        if m >= x { m } else { x }
    }
}

/// Columns for line numbers: the digits of the largest one, at least three.
pub open spec fn gutter_spec(rows: Seq<RowModel>) -> nat {
    let d = decimal_spec(max_number(rows)).len();
    if d >= 3 { d } else { 3 }
}

pub fn gutter_width(doc: &Document) -> (r: usize)
    ensures
        r == gutter_spec(rows_model(doc.rows@)),
{
    let ghost rows = rows_model(doc.rows@);
    let mut max: usize = 1;
    let mut i: usize = 0;
    while i < doc.rows.len()
        invariant
            rows == rows_model(doc.rows@),
            i <= doc.rows@.len(),
            max == max_number(rows.take(i as int)),
        decreases doc.rows@.len() - i,
    {
        let r = &doc.rows[i];
        let a = match &r.old {
            Some(c) => c.number,
            None => 0,
        };
        let b = match &r.new {
            Some(c) => c.number,
            None => 0,
        };
        let x = if a >= b { a } else { b };
        proof {
            assert(rows.take(i + 1).drop_last() =~= rows.take(i as int));
            assert(rows.take(i + 1).last() == rows[i as int]);
            assert(x == row_number(rows[i as int]));
            if i == 0 {
                assert(rows.take(1) =~= seq![rows[0]]);
            }
        }
        if i == 0 || x > max {
            max = x;
        }
        i = i + 1;
    }
    proof {
        assert(rows.take(i as int) =~= rows);
    }
    let mut digits: Vec<char> = Vec::new();
    push_decimal(&mut digits, max);
    if digits.len() >= 3 {
        digits.len()
    } else {
        3
    }
}

// --------------------------------------------------------------- the help

pub open spec fn describe_spec(a: Action) -> Seq<char> {
    match a {
        Action::Quit => "quit"@,
        Action::Help => "this help"@,
        Action::Refresh => "re-read the repository"@,
        Action::ToggleTree => "toggle the file tree"@,
        Action::FocusTree => "focus the tree"@,
        Action::FocusDiff => "focus the diff"@,
        Action::ToggleLayout => "toggle split / unified"@,
        Action::WidenTree => "widen the tree"@,
        Action::NarrowTree => "narrow the tree"@,
        Action::Down => "down"@,
        Action::Up => "up"@,
        Action::HalfPageDown => "half page down"@,
        Action::HalfPageUp => "half page up"@,
        Action::PageDown => "page down"@,
        Action::PageUp => "page up"@,
        Action::Top => "first line"@,
        Action::Bottom => "last line"@,
        Action::Center => "centre the cursor"@,
        Action::NextHunk => "next hunk"@,
        Action::PrevHunk => "previous hunk"@,
        Action::NextFile => "next changed file"@,
        Action::PrevFile => "previous changed file"@,
        Action::NextQuickfix => "next quickfix entry"@,
        Action::PrevQuickfix => "previous quickfix entry"@,
        Action::ScrollLeft => "scroll left"@,
        Action::ScrollRight => "scroll right"@,
        Action::ScrollHome => "scroll back to column 0"@,
        Action::ToggleFullContext => "toggle whole-file view"@,
        Action::ToggleGroupDirs => "toggle grouped directories"@,
        Action::SearchPrompt => "search in this diff"@,
        Action::SearchNext => "next match"@,
        Action::SearchPrev => "previous match"@,
        Action::ClearSearch => "clear the search"@,
        Action::PickFiles => "find changed file"@,
        Action::PickGrep => "live grep the changes"@,
        Action::PickGrepWord => "grep the word under the cursor"@,
        Action::PickBuffers => "recently opened files"@,
        Action::PickLines => "find a line in this diff"@,
        Action::PickResume => "resume the last picker"@,
        Action::TreeOpen => "open / expand"@,
        Action::TreeToggleNode => "expand or collapse"@,
        Action::TreeCloseNode => "collapse this directory"@,
        Action::TreeToggleAll => "toggle all directories"@,
        Action::TreeCloseAll => "collapse everything"@,
        Action::TreeExpandAll => "expand everything"@,
        Action::TreeNavigateUp => "go to the parent directory"@,
        Action::TreeFilter => "filter the tree"@,
        Action::TreeClearFilter => "clear the tree filter"@,
        Action::OpenEditor => "open in $EDITOR"@,
        Action::YankPath => "copy the path"@,
        Action::SwapSides => "swap the two sides"@,
    }
}

/// What a key does, in a few words, for the help screen.
pub fn describe(a: Action) -> (r: &'static str)
    ensures
        r@ == describe_spec(a),
{
    match a {
        Action::Quit => "quit",
        Action::Help => "this help",
        Action::Refresh => "re-read the repository",
        Action::ToggleTree => "toggle the file tree",
        Action::FocusTree => "focus the tree",
        Action::FocusDiff => "focus the diff",
        Action::ToggleLayout => "toggle split / unified",
        Action::WidenTree => "widen the tree",
        Action::NarrowTree => "narrow the tree",
        Action::Down => "down",
        Action::Up => "up",
        Action::HalfPageDown => "half page down",
        Action::HalfPageUp => "half page up",
        Action::PageDown => "page down",
        Action::PageUp => "page up",
        Action::Top => "first line",
        Action::Bottom => "last line",
        Action::Center => "centre the cursor",
        Action::NextHunk => "next hunk",
        Action::PrevHunk => "previous hunk",
        Action::NextFile => "next changed file",
        Action::PrevFile => "previous changed file",
        Action::NextQuickfix => "next quickfix entry",
        Action::PrevQuickfix => "previous quickfix entry",
        Action::ScrollLeft => "scroll left",
        Action::ScrollRight => "scroll right",
        Action::ScrollHome => "scroll back to column 0",
        Action::ToggleFullContext => "toggle whole-file view",
        Action::ToggleGroupDirs => "toggle grouped directories",
        Action::SearchPrompt => "search in this diff",
        Action::SearchNext => "next match",
        Action::SearchPrev => "previous match",
        Action::ClearSearch => "clear the search",
        Action::PickFiles => "find changed file",
        Action::PickGrep => "live grep the changes",
        Action::PickGrepWord => "grep the word under the cursor",
        Action::PickBuffers => "recently opened files",
        Action::PickLines => "find a line in this diff",
        Action::PickResume => "resume the last picker",
        Action::TreeOpen => "open / expand",
        Action::TreeToggleNode => "expand or collapse",
        Action::TreeCloseNode => "collapse this directory",
        Action::TreeToggleAll => "toggle all directories",
        Action::TreeCloseAll => "collapse everything",
        Action::TreeExpandAll => "expand everything",
        Action::TreeNavigateUp => "go to the parent directory",
        Action::TreeFilter => "filter the tree",
        Action::TreeClearFilter => "clear the tree filter",
        Action::OpenEditor => "open in $EDITOR",
        Action::YankPath => "copy the path",
        Action::SwapSides => "swap the two sides",
    }
}

// ------------------------------------------------------------------ runs

/// The largest character boundary of `b` at or below `i`, not past `top`
/// (the length of `b`).
pub open spec fn floor_cut(b: Seq<u8>, top: int, i: int) -> int
    decreases i,
{
    if i > top {
        if top < 0 {
            0
        } else {
            floor_cut(b, top, top)
        }
    } else if i <= 0 {
        0
    } else if is_char_boundary(b, i) {
        i
    } else {
        floor_cut(b, top, i - 1)
    }
}

proof fn lemma_floor_cut(b: Seq<u8>, top: int, i: int)
    requires
        top >= 0,
    ensures
        0 <= floor_cut(b, top, i) <= top,
    decreases i,
{
    if i > top {
        lemma_floor_cut(b, top, top);
    } else if i > 0 && !is_char_boundary(b, i) {
        lemma_floor_cut(b, top, i - 1);
    }
}

/// Every place a run may start or end: both ends of the text and each end
/// of each mark, snapped down to a character boundary.
pub open spec fn cut_points<S>(b: Seq<u8>, top: int, marks: Seq<(usize, usize, S)>) -> Seq<usize> {
    seq![0usize, top as usize] + Seq::new(marks.len(), |k: int| floor_cut(b, top, marks[k].0 as int) as usize)
        + Seq::new(marks.len(), |k: int| floor_cut(b, top, marks[k].1 as int) as usize)
}

/// The least of `c` that is at least `lo`.
pub open spec fn min_at_least(c: Seq<usize>, lo: int) -> Option<usize>
    decreases c.len(),
{
    if c.len() == 0 {
        None
    } else {
        let r = min_at_least(c.drop_last(), lo);
        let x = c.last();
        if x >= lo && (r matches Some(y) ==> x < y) {
            Some(x)
        } else {
            r
        }
    }
}

proof fn lemma_min_at_least(c: Seq<usize>, lo: int)
    ensures
        min_at_least(c, lo) matches Some(x) ==> x >= lo && c.contains(x),
        min_at_least(c, lo) matches Some(x) ==> forall|k: int| 0 <= k < c.len() && c[k] >= lo ==> x <= c[k],
        min_at_least(c, lo) is None ==> forall|k: int| 0 <= k < c.len() ==> c[k] < lo,
    decreases c.len(),
{
    if c.len() > 0 {
        let p = c.drop_last();
        lemma_min_at_least(p, lo);
        assert forall|k: int| 0 <= k < p.len() implies p[k] == c[k] by {}
        if let Some(y) = min_at_least(p, lo) {
            let j = choose|j: int| 0 <= j < p.len() && p[j] == y;
            assert(c[j] == y);
        }
        if min_at_least(c, lo) == Some(c.last()) {
            assert(c[c.len() - 1] == c.last());
        }
    }
}

/// The points of `c` from `lo` up to `top`, in increasing order, each once.
pub open spec fn cut_seq(c: Seq<usize>, lo: int, top: int) -> Seq<usize>
    decreases top + 1 - lo,
{
    if lo > top {
        Seq::empty()
    } else {
        match min_at_least(c, lo) {
            Some(x) => if x < lo || x > top {
                Seq::empty()
            } else {
                seq![x] + cut_seq(c, x + 1, top)
            },
            None => Seq::empty(),
        }
    }
}

/// The style of the last mark that covers the span `[s, e)`, else `base`.
pub open spec fn cover<S>(marks: Seq<(usize, usize, S)>, s: int, e: int, base: S, n: int) -> S
    decreases n,
{
    if n <= 0 {
        base
    } else if marks[n - 1].0 <= s && e <= marks[n - 1].1 {
        marks[n - 1].2
    } else {
        cover(marks, s, e, base, n - 1)
    }
}

/// `text` cut at every mark boundary into `(piece, style)` runs, each
/// piece styled by the last mark that covers it. Cut points are snapped
/// down to a character boundary rather than dropped: a mark that lands
/// mid-character costs a little highlight precision, but dropping it would
/// blank the whole line instead.
pub open spec fn split_runs_spec<S>(text: Seq<char>, base: S, marks: Seq<(usize, usize, S)>) -> Seq<(Seq<char>, S)> {
    if marks.len() == 0 {
        seq![(text, base)]
    } else {
        let top = str_len(text) as int;
        let cs = cut_seq(cut_points(encoded(text), top, marks), 0, top);
        Seq::new(
            if cs.len() == 0 { 0 } else { (cs.len() - 1) as nat },
            |k: int|
                (
                    slice_spec(text, cs[k], cs[k + 1]),
                    cover(marks, cs[k] as int, cs[k + 1] as int, base, marks.len() as int),
                ),
        )
    }
}

/// The text of a sequence of runs, read in order.
pub open spec fn run_text<S>(runs: Seq<(Seq<char>, S)>) -> Seq<char>
    decreases runs.len(),
{
    if runs.len() == 0 {
        Seq::empty()
    } else {
        run_text(runs.drop_last()) + runs.last().0
    }
}

proof fn lemma_floor_cut_boundary(b: Seq<u8>, top: int, i: int)
    requires
        top >= 0,
    ensures
        floor_cut(b, top, i) == 0 || is_char_boundary(b, floor_cut(b, top, i)),
    decreases i,
{
    if i > top {
        lemma_floor_cut_boundary(b, top, top);
    } else if i > 0 && !is_char_boundary(b, i) {
        lemma_floor_cut_boundary(b, top, i - 1);
    }
}

proof fn lemma_cut_seq(c: Seq<usize>, lo: int, top: int)
    requires
        0 <= lo <= top <= usize::MAX,
        c.contains(top as usize),
        forall|k: int| 0 <= k < c.len() ==> c[k] <= top,
    ensures
        ({
            let s = cut_seq(c, lo, top);
            &&& s.len() >= 1
            &&& s.last() == top
            &&& Some(s[0]) == min_at_least(c, lo)
            &&& forall|k: int| 0 <= k < s.len() ==> c.contains(#[trigger] s[k])
            &&& forall|k: int| 0 <= k < s.len() - 1 ==> #[trigger] s[k] < s[k + 1]
        }),
    decreases top + 1 - lo,
{
    lemma_min_at_least(c, lo);
    let j = choose|j: int| 0 <= j < c.len() && c[j] == top as usize;
    assert(c[j] >= lo);
    assert(min_at_least(c, lo) is Some);
    let x = min_at_least(c, lo)->0;
    assert(x <= c[j]);
    assert(lo <= x <= top);
    let s = cut_seq(c, lo, top);
    if x == top {
        assert(cut_seq(c, x + 1, top) =~= Seq::<usize>::empty());
        assert(s =~= seq![x]);
    } else {
        lemma_cut_seq(c, x + 1, top);
        let rest = cut_seq(c, x + 1, top);
        lemma_min_at_least(c, x + 1);
        assert(s == seq![x] + rest);
        assert forall|k: int| 0 <= k < s.len() implies c.contains(#[trigger] s[k]) by {
            if k > 0 {
                assert(s[k] == rest[k - 1]);
            }
        }
        assert forall|k: int| 0 <= k < s.len() - 1 implies #[trigger] s[k] < s[k + 1] by {
            if k > 0 {
                assert(s[k] == rest[k - 1]);
                assert(s[k + 1] == rest[k]);
            } else {
                assert(s[1] == rest[0]);
            }
        }
    }
}

proof fn lemma_runs_prefix<S>(text: Seq<char>, base: S, marks: Seq<(usize, usize, S)>, k: int)
    requires
        encoded(text).len() <= usize::MAX,
        marks.len() > 0,
        0 <= k <= split_runs_spec(text, base, marks).len(),
    ensures
        ({
            let b = encoded(text);
            let top = str_len(text) as int;
            let cs = cut_seq(cut_points(b, top, marks), 0, top);
            &&& cs.len() == split_runs_spec(text, base, marks).len() + 1
            &&& run_text(split_runs_spec(text, base, marks).take(k)) == decode_utf8(b.subrange(0, cs[k] as int))
            &&& cs[cs.len() - 1] == top
        }),
    decreases k,
{
    let r = split_runs_spec(text, base, marks);
    let b = encoded(text);
    let top = str_len(text) as int;
    assert(top == b.len());
    vstd::utf8::encode_utf8_valid_utf8(text);
    vstd::utf8::is_char_boundary_start_end_of_seq(b);
    let c = cut_points(b, top, marks);
    assert(c[1] == top as usize);
    assert(c.contains(top as usize));
    assert forall|q: int| 0 <= q < c.len() implies c[q] <= top && is_char_boundary(b, c[q] as int) by {
        if q >= 2 && q < 2 + marks.len() {
            lemma_floor_cut(b, top, marks[q - 2].0 as int);
            lemma_floor_cut_boundary(b, top, marks[q - 2].0 as int);
        } else if q >= 2 + marks.len() {
            lemma_floor_cut(b, top, marks[q - 2 - marks.len()].1 as int);
            lemma_floor_cut_boundary(b, top, marks[q - 2 - marks.len()].1 as int);
        }
    }
    lemma_cut_seq(c, 0, top);
    let cs = cut_seq(c, 0, top);
    lemma_min_at_least(c, 0);
    assert(c[0] == 0usize);
    assert(cs[0] == 0);
    if k == 0 {
        assert(r.take(0) =~= Seq::<(Seq<char>, S)>::empty());
        assert(b.subrange(0, 0) =~= Seq::<u8>::empty());
        vstd::utf8::encode_utf8_decode_utf8(Seq::<char>::empty());
        assert(encode_utf8(Seq::<char>::empty()) =~= Seq::<u8>::empty());
    } else {
        lemma_runs_prefix(text, base, marks, k - 1);
        let x = cs[k - 1] as int;
        let y = cs[k] as int;
        assert(c.contains(cs[k - 1]));
        assert(c.contains(cs[k]));
        let jx = choose|j: int| 0 <= j < c.len() && c[j] == cs[k - 1];
        let jy = choose|j: int| 0 <= j < c.len() && c[j] == cs[k];
        assert(is_char_boundary(b, x) && x <= top);
        assert(is_char_boundary(b, y) && y <= top);
        assert(x < y);
        let pre = b.subrange(0, y);
        vstd::utf8::valid_utf8_split(b, y);
        assert(vstd::utf8::valid_utf8(pre));
        vstd::utf8::is_char_boundary_iff_not_is_continuation_byte(b, x);
        vstd::utf8::is_char_boundary_iff_not_is_continuation_byte(pre, x);
        assert(pre[x] == b[x]);
        assert(is_char_boundary(pre, x));
        vstd::utf8::decode_utf8_split(pre, x);
        assert(pre.subrange(0, x) =~= b.subrange(0, x));
        assert(pre.subrange(x, pre.len() as int) =~= b.subrange(x, y));
        assert(r[k - 1].0 == decode_utf8(b.subrange(x, y)));
        assert(r.take(k).drop_last() =~= r.take(k - 1));
        assert(r.take(k).last() == r[k - 1]);
    }
}

/// However the marks fall -- even inside a character -- the runs hold the
/// whole text, in order: a mark only moves where the text is cut.
pub proof fn runs_keep_the_text<S>(text: Seq<char>, base: S, marks: Seq<(usize, usize, S)>)
    requires
        encoded(text).len() <= usize::MAX,
    ensures
        run_text(split_runs_spec(text, base, marks)) == text,
{
    let r = split_runs_spec(text, base, marks);
    if marks.len() == 0 {
        assert(r.drop_last() =~= Seq::<(Seq<char>, S)>::empty());
        assert(run_text(r.drop_last()) =~= Seq::<char>::empty());
        assert(r.last().0 == text);
        assert(run_text(r) =~= text);
        return;
    }
    let b = encoded(text);
    let top = str_len(text) as int;
    let cs = cut_seq(cut_points(b, top, marks), 0, top);
    // The runs so far spell the text up to the cut they end at.
    lemma_runs_prefix(text, base, marks, r.len() as int);
    let k = r.len() as int;
    assert(r.take(k) =~= r);
    assert(cs[k] == top);
    assert(b.subrange(0, top) =~= b);
    vstd::utf8::encode_utf8_decode_utf8(text);
}

fn floor_of(text: &str, i: usize) -> (r: usize)
    ensures
        r == floor_cut(encoded(text@), str_len(text@) as int, i as int),
{
    let len = text.len();
    let mut k = if i <= len {
        i
    } else {
        len
    };
    while k > 0 && !text.is_char_boundary(k)
        invariant
            len == str_len(text@),
            k <= len,
            floor_cut(encoded(text@), len as int, i as int) == floor_cut(encoded(text@), len as int, k as int),
        decreases k,
    {
        k = k - 1;
    }
    k
}

fn min_at_least_of(c: &Vec<usize>, lo: usize) -> (r: Option<usize>)
    ensures
        r == min_at_least(c@, lo as int),
{
    let mut best: Option<usize> = None;
    let mut i: usize = 0;
    proof {
        assert(c@.take(0) =~= Seq::<usize>::empty());
    }
    while i < c.len()
        invariant
            i <= c@.len(),
            best == min_at_least(c@.take(i as int), lo as int),
        decreases c@.len() - i,
    {
        proof {
            assert(c@.take(i + 1).drop_last() =~= c@.take(i as int));
            assert(c@.take(i + 1).last() == c@[i as int]);
        }
        let x = c[i];
        let better = match best {
            Some(y) => x < y,
            None => true,
        };
        if x >= lo && better {
            best = Some(x);
        }
        i = i + 1;
    }
    proof {
        assert(c@.take(i as int) =~= c@);
    }
    best
}

fn cover_of<S: Copy>(marks: &[(usize, usize, S)], s: usize, e: usize, base: S) -> (r: S)
    ensures
        r == cover(marks@, s as int, e as int, base, marks@.len() as int),
{
    let mut n: usize = marks.len();
    while n > 0
        invariant
            n <= marks@.len(),
            cover(marks@, s as int, e as int, base, marks@.len() as int) == cover(marks@, s as int, e as int, base, n as int),
        decreases n,
    {
        let (ms, me, st) = marks[n - 1];
        if ms <= s && e <= me {
            return st;
        }
        n = n - 1;
    }
    base
}

/// Cut `text` into `(piece, style)` runs at every mark boundary.
pub fn split_runs<S: Copy>(text: &str, base: S, marks: &[(usize, usize, S)]) -> (r: Vec<(String, S)>)
    ensures
        r@.len() == split_runs_spec(text@, base, marks@).len(),
        forall|k: int| 0 <= k < r@.len() ==> (#[trigger] r@[k]).0@ == split_runs_spec(text@, base, marks@)[k].0
            && r@[k].1 == split_runs_spec(text@, base, marks@)[k].1,
{
    let mut out: Vec<(String, S)> = Vec::new();
    if marks.len() == 0 {
        out.push((crate::text::owned(text), base));
        return out;
    }
    let len = text.len();
    let ghost b = encoded(text@);
    let ghost top = len as int;
    let mut cand: Vec<usize> = Vec::new();
    cand.push(0);
    cand.push(len);
    let mut i: usize = 0;
    while i < marks.len()
        invariant
            len == str_len(text@),
            b == encoded(text@),
            top == len as int,
            i <= marks@.len(),
            cand@ == seq![0usize, len] + Seq::new(i as nat, |k: int| floor_cut(b, top, marks@[k].0 as int) as usize),
        decreases marks@.len() - i,
    {
        let f = floor_of(text, marks[i].0);
        cand.push(f);
        proof {
            assert(cand@ =~= seq![0usize, len] + Seq::new((i + 1) as nat, |k: int| floor_cut(b, top, marks@[k].0 as int) as usize));
        }
        i = i + 1;
    }
    let mut j: usize = 0;
    while j < marks.len()
        invariant
            len == str_len(text@),
            b == encoded(text@),
            top == len as int,
            j <= marks@.len(),
            cand@ == seq![0usize, len] + Seq::new(marks@.len(), |k: int| floor_cut(b, top, marks@[k].0 as int) as usize)
                + Seq::new(j as nat, |k: int| floor_cut(b, top, marks@[k].1 as int) as usize),
        decreases marks@.len() - j,
    {
        let f = floor_of(text, marks[j].1);
        cand.push(f);
        proof {
            assert(cand@ =~= seq![0usize, len] + Seq::new(marks@.len(), |k: int| floor_cut(b, top, marks@[k].0 as int) as usize)
                + Seq::new((j + 1) as nat, |k: int| floor_cut(b, top, marks@[k].1 as int) as usize));
        }
        j = j + 1;
    }
    let ghost c = cand@;
    proof {
        assert(c == cut_points(b, top, marks@));
        assert forall|k: int| 0 <= k < c.len() implies c[k] <= top by {
            if k >= 2 && k < 2 + marks@.len() {
                lemma_floor_cut(b, top, marks@[k - 2].0 as int);
            } else if k >= 2 + marks@.len() {
                lemma_floor_cut(b, top, marks@[k - 2 - marks@.len()].1 as int);
            }
        }
        assert(c[1] == len);
    }
    // The cut points in increasing order, each once.
    let mut cuts: Vec<usize> = Vec::new();
    let mut lo: usize = 0;
    loop
        invariant_except_break
            cuts@ + cut_seq(c, lo as int, top) == cut_seq(c, 0, top),
        invariant
            c == cand@,
            top == len as int,
            forall|k: int| 0 <= k < c.len() ==> c[k] <= top,
            c.len() >= 2,
            c[1] == len,
            lo <= len,
        ensures
            cuts@ == cut_seq(c, 0, top),
        decreases len - lo,
    {
        let m = min_at_least_of(&cand, lo);
        proof {
            lemma_min_at_least(c, lo as int);
        }
        match m {
            Some(x) => {
                proof {
                    let k = choose|k: int| 0 <= k < c.len() && c[k] == x;
                    assert(x <= top);
                    assert(cut_seq(c, lo as int, top) == seq![x] + cut_seq(c, x + 1, top));
                }
                let ghost before = cuts@;
                cuts.push(x);
                proof {
                    assert(cuts@ + cut_seq(c, x + 1, top) =~= before + cut_seq(c, lo as int, top));
                }
                if x == len {
                    proof {
                        assert(cut_seq(c, x + 1, top) =~= Seq::<usize>::empty());
                        assert(cuts@ =~= cuts@ + cut_seq(c, x + 1, top));
                    }
                    break;
                }
                lo = x + 1;
            },
            None => {
                proof {
                    assert(c[1] >= lo);
                }
                break;
            },
        }
    }
    let ghost spec = split_runs_spec(text@, base, marks@);
    let mut k: usize = 0;
    while cuts.len() > 0 && k < cuts.len() - 1
        invariant
            spec == split_runs_spec(text@, base, marks@),
            cuts@ == cut_seq(cut_points(encoded(text@), str_len(text@) as int, marks@), 0, str_len(text@) as int),
            marks@.len() > 0,
            k <= cuts@.len(),
            cuts@.len() > 0 ==> k < cuts@.len(),
            out@.len() == k,
            forall|q: int| 0 <= q < k ==> (#[trigger] out@[q]).0@ == spec[q].0 && out@[q].1 == spec[q].1,
        decreases cuts@.len() - k,
    {
        let s = cuts[k];
        let e = cuts[k + 1];
        let style = cover_of(marks, s, e, base);
        out.push((crate::text::owned(byte_slice(text, s, e)), style));
        k = k + 1;
    }
    out
}

// ---------------------------------------------------------------- columns

/// `char::is_control`: the Unicode general category `Cc`, which is exactly
/// U+0000..U+001F and U+007F..U+009F.
pub open spec fn is_control_spec(c: char) -> bool {
    (c as u32) < 0x20 || (0x7f <= (c as u32) && (c as u32) < 0xa0)
}

pub fn is_control(c: char) -> (r: bool)
    ensures
        r == is_control_spec(c),
{
    let v = c as u32;
    v < 0x20 || (0x7f <= v && v < 0xa0)
}

/// What `UnicodeWidthChar::width` gives for `c`.
pub uninterp spec fn width_of(c: char) -> Option<usize>;

/// `UnicodeWidthChar::width` (unicode-width): the columns `c` occupies by
/// UAX #11, ambiguous characters narrow. Its tables are not restated; the
/// result is named by `width_of`. The source shows that it is `None`
/// exactly for the control characters U+0000..U+001F and U+007F..U+009F,
/// one column for the rest of ASCII, and never more than three.
#[verifier::external_body]
fn char_width(c: char) -> (r: Option<usize>)
    ensures
        r == width_of(c),
        r is None <==> is_control_spec(c),
        0x20 <= (c as u32) < 0x7f ==> r == Some(1usize),
        r matches Some(w) ==> w <= 3,
{
    UnicodeWidthChar::width(c)
}

/// Where a line is being written: the column in the fully expanded line,
/// the columns written so far, the text of the current run not yet handed
/// out, and whether the pane is full.
pub struct Pen {
    pub column: nat,
    pub emitted: nat,
    pub buf: Seq<char>,
    pub stopped: bool,
}

/// One column of a tab: a space, unless it is scrolled off to the left.
pub open spec fn tab_column(p: Pen, hscroll: nat, width: nat) -> Pen {
    if p.stopped {
        p
    } else if p.column >= hscroll {
        if p.emitted >= width {
            Pen { stopped: true, ..p }
        } else {
            Pen { column: p.column + 1, emitted: p.emitted + 1, buf: p.buf.push(' '), stopped: false }
        }
    } else {
        Pen { column: p.column + 1, ..p }
    }
}

pub open spec fn tab_columns(p: Pen, n: nat, hscroll: nat, width: nat) -> Pen
    decreases n,
{
    if n == 0 {
        p
    } else {
        tab_column(tab_columns(p, (n - 1) as nat, hscroll, width), hscroll, width)
    }
}

/// How a character is drawn and how many columns it takes: a control
/// character as a middle dot, anything else as itself, as wide as
/// unicode-width says (one column when it has no width).
pub open spec fn glyph(ch: char) -> (char, nat) {
    if is_control_spec(ch) {
        ('\u{b7}', 1)
    } else {
        (
            ch,
            match width_of(ch) {
                Some(w) => w as nat,
                None => 1,
            },
        )
    }
}

/// One character: a tab reaches the next multiple of `TABSTOP` counted from
/// the start of the real line; anything else is drawn unless scrolled off,
/// and never so that a wide character straddles the right edge.
pub open spec fn draw_char(p: Pen, ch: char, hscroll: nat, width: nat) -> Pen {
    if p.stopped {
        p
    } else if ch == '\t' {
        tab_columns(p, (TABSTOP - p.column % (TABSTOP as nat)) as nat, hscroll, width)
    } else {
        let (g, w) = glyph(ch);
        if p.column >= hscroll {
            if p.emitted + w > width {
                Pen { stopped: true, ..p }
            } else {
                Pen { column: p.column + w, emitted: p.emitted + w, buf: p.buf.push(g), stopped: false }
            }
        } else {
            Pen { column: p.column + w, ..p }
        }
    }
}

pub open spec fn draw_chars(p: Pen, cs: Seq<char>, hscroll: nat, width: nat) -> Pen
    decreases cs.len(),
{
    if cs.len() == 0 {
        p
    } else {
        draw_char(draw_chars(p, cs.drop_last(), hscroll, width), cs.last(), hscroll, width)
    }
}

/// A line laid out so far: where the pen is, whether the pane is full, and
/// the styled pieces written.
pub struct Laid<S> {
    pub column: nat,
    pub emitted: nat,
    pub stopped: bool,
    pub out: Seq<(Seq<char>, S)>,
}

/// The first `n` runs laid out: each run's drawn text becomes one piece in
/// its style, unless nothing of it showed.
pub open spec fn laid<S>(runs: Seq<(Seq<char>, S)>, n: int, hscroll: nat, width: nat) -> Laid<S>
    decreases n,
{
    if n <= 0 {
        Laid { column: 0, emitted: 0, stopped: false, out: Seq::empty() }
    } else {
        let st = laid(runs, n - 1, hscroll, width);
        if st.stopped {
            st
        } else {
            let p = draw_chars(
                Pen { column: st.column, emitted: st.emitted, buf: Seq::empty(), stopped: false },
                runs[n - 1].0,
                hscroll,
                width,
            );
            Laid {
                column: p.column,
                emitted: p.emitted,
                stopped: p.stopped,
                out: if p.buf.len() > 0 {
                    st.out.push((p.buf, runs[n - 1].1))
                } else {
                    st.out
                },
            }
        }
    }
}

/// What `layout` returns.
pub open spec fn layout_spec<S>(runs: Seq<(Seq<char>, S)>, hscroll: usize, width: usize) -> Seq<(Seq<char>, S)> {
    laid(runs, runs.len() as int, hscroll as nat, width as nat).out
}

/// The pen never runs further right of the scroll position than it has
/// written, give or take the last glyph.
pub open spec fn pen_ok(p: Pen, hscroll: nat, width: nat) -> bool {
    p.column <= hscroll + p.emitted + 3 && p.emitted <= width
}

proof fn lemma_tab_columns_ok(p: Pen, n: nat, hscroll: nat, width: nat)
    requires
        pen_ok(p, hscroll, width),
    ensures
        pen_ok(tab_columns(p, n, hscroll, width), hscroll, width),
        !p.stopped || tab_columns(p, n, hscroll, width) == p,
        tab_columns(p, n, hscroll, width).buf.len() >= p.buf.len(),
    decreases n,
{
    if n > 0 {
        lemma_tab_columns_ok(p, (n - 1) as nat, hscroll, width);
    }
}

/// A tab drawn one column at a time.
fn draw_tab(
    column: &mut u128,
    emitted: &mut u128,
    buf: &mut Vec<char>,
    n: usize,
    hscroll: usize,
    width: usize,
) -> (stopped: bool)
    requires
        pen_ok(Pen { column: *old(column) as nat, emitted: *old(emitted) as nat, buf: old(buf)@, stopped: false }, hscroll as nat, width as nat),
    ensures
        ({
            let p = tab_columns(
                Pen { column: *old(column) as nat, emitted: *old(emitted) as nat, buf: old(buf)@, stopped: false },
                n as nat,
                hscroll as nat,
                width as nat,
            );
            &&& *final(column) == p.column
            &&& *final(emitted) == p.emitted
            &&& final(buf)@ == p.buf
            &&& stopped == p.stopped
        }),
{
    let ghost p0 = Pen { column: *column as nat, emitted: *emitted as nat, buf: buf@, stopped: false };
    let mut k: usize = 0;
    while k < n
        invariant
            k <= n,
            p0 == (Pen { column: *old(column) as nat, emitted: *old(emitted) as nat, buf: old(buf)@, stopped: false }),
            pen_ok(p0, hscroll as nat, width as nat),
            ({
                let p = tab_columns(p0, k as nat, hscroll as nat, width as nat);
                &&& *column == p.column
                &&& *emitted == p.emitted
                &&& buf@ == p.buf
                &&& !p.stopped
                &&& pen_ok(p, hscroll as nat, width as nat)
            }),
        decreases n - k,
    {
        proof {
            lemma_tab_columns_ok(p0, k as nat, hscroll as nat, width as nat);
        }
        if *column >= hscroll as u128 {
            if *emitted >= width as u128 {
                proof {
                    let p = tab_columns(p0, k as nat, hscroll as nat, width as nat);
                    assert(tab_columns(p0, (k + 1) as nat, hscroll as nat, width as nat) == Pen { stopped: true, ..p });
                    lemma_tab_stopped(p0, (k + 1) as nat, n as nat, hscroll as nat, width as nat);
                }
                return true;
            }
            buf.push(' ');
            *emitted = *emitted + 1;
        }
        *column = *column + 1;
        k = k + 1;
    }
    false
}

proof fn lemma_tab_stopped(p: Pen, k: nat, n: nat, hscroll: nat, width: nat)
    requires
        k <= n,
        tab_columns(p, k, hscroll, width).stopped,
    ensures
        tab_columns(p, n, hscroll, width) == tab_columns(p, k, hscroll, width),
    decreases n - k,
{
    if k < n {
        lemma_tab_stopped(p, k, (n - 1) as nat, hscroll, width);
    }
}

proof fn lemma_chars_stopped(p: Pen, cs: Seq<char>, k: int, hscroll: nat, width: nat)
    requires
        0 <= k <= cs.len(),
        draw_chars(p, cs.take(k), hscroll, width).stopped,
    ensures
        draw_chars(p, cs, hscroll, width) == draw_chars(p, cs.take(k), hscroll, width),
    decreases cs.len() - k,
{
    if k < cs.len() {
        assert(cs.take(k + 1).drop_last() =~= cs.take(k));
        lemma_chars_stopped(p, cs, k + 1, hscroll, width);
    } else {
        assert(cs.take(k) =~= cs);
    }
}

proof fn lemma_laid_stopped<S>(runs: Seq<(Seq<char>, S)>, k: int, hscroll: nat, width: nat)
    requires
        0 <= k <= runs.len(),
        laid(runs, k, hscroll, width).stopped,
    ensures
        laid(runs, runs.len() as int, hscroll, width) == laid(runs, k, hscroll, width),
    decreases runs.len() - k,
{
    if k < runs.len() {
        lemma_laid_stopped(runs, k + 1, hscroll, width);
    }
}

proof fn lemma_tab_columns_fit(p: Pen, n: nat, hscroll: nat, width: nat)
    requires
        p.emitted <= width,
    ensures
        tab_columns(p, n, hscroll, width).emitted <= width,
    decreases n,
{
    if n > 0 {
        lemma_tab_columns_fit(p, (n - 1) as nat, hscroll, width);
    }
}

proof fn lemma_draw_chars_fit(p: Pen, cs: Seq<char>, hscroll: nat, width: nat)
    requires
        p.emitted <= width,
    ensures
        draw_chars(p, cs, hscroll, width).emitted <= width,
    decreases cs.len(),
{
    if cs.len() > 0 {
        let q = draw_chars(p, cs.drop_last(), hscroll, width);
        lemma_draw_chars_fit(p, cs.drop_last(), hscroll, width);
        if !q.stopped && cs.last() == '\t' {
            lemma_tab_columns_fit(q, (TABSTOP - q.column % (TABSTOP as nat)) as nat, hscroll, width);
        }
    }
}

proof fn lemma_laid_fits<S>(runs: Seq<(Seq<char>, S)>, n: int, hscroll: nat, width: nat)
    ensures
        laid(runs, n, hscroll, width).emitted <= width,
    decreases n,
{
    if n > 0 {
        let st = laid(runs, n - 1, hscroll, width);
        lemma_laid_fits(runs, n - 1, hscroll, width);
        if !st.stopped {
            lemma_draw_chars_fit(
                Pen { column: st.column, emitted: st.emitted, buf: Seq::empty(), stopped: false },
                runs[n - 1].0,
                hscroll,
                width,
            );
        }
    }
}

/// However long its text and however far it is scrolled, a line laid out
/// for a pane takes no more columns than the pane is wide.
pub proof fn lines_never_outgrow_the_pane<S>(runs: Seq<(Seq<char>, S)>, hscroll: usize, width: usize)
    ensures
        laid(runs, runs.len() as int, hscroll as nat, width as nat).emitted <= width,
{
    lemma_laid_fits(runs, runs.len() as int, hscroll as nat, width as nat);
}

/// Expand tabs, drop the first `hscroll` columns, and stop at `width`.
///
/// Everything here is measured in columns, not bytes: a tab reaches the
/// next multiple of `TABSTOP` counted from the start of the real line, and
/// a double-width character occupies two columns.
pub fn layout<S: Copy>(runs: &[(String, S)], hscroll: usize, width: usize) -> (r: Vec<(String, S)>)
    ensures
        r@.len() == layout_spec(runs_model(runs@), hscroll, width).len(),
        forall|k: int| 0 <= k < r@.len() ==> (#[trigger] r@[k]).0@ == layout_spec(runs_model(runs@), hscroll, width)[k].0
            && r@[k].1 == layout_spec(runs_model(runs@), hscroll, width)[k].1,
{
    let ghost rm = runs_model(runs@);
    let ghost hs = hscroll as nat;
    let ghost wd = width as nat;
    let mut out: Vec<(String, S)> = Vec::new();
    // Column in the fully expanded line, and columns actually written.
    let mut column: u128 = 0;
    let mut emitted: u128 = 0;
    let mut ri: usize = 0;
    while ri < runs.len()
        invariant
            rm == runs_model(runs@),
            hs == hscroll as nat,
            wd == width as nat,
            ri <= runs@.len(),
            ({
                let st = laid(rm, ri as int, hs, wd);
                &&& !st.stopped
                &&& column == st.column
                &&& emitted == st.emitted
                &&& pen_ok(Pen { column: st.column, emitted: st.emitted, buf: Seq::empty(), stopped: false }, hs, wd)
                &&& out@.len() == st.out.len()
                &&& forall|k: int| 0 <= k < out@.len() ==> (#[trigger] out@[k]).0@ == st.out[k].0 && out@[k].1 == st.out[k].1
            }),
        decreases runs@.len() - ri,
    {
        let style = runs[ri].1;
        let cs = crate::text::chars_of(runs[ri].0.as_str());
        let ghost p0 = Pen { column: column as nat, emitted: emitted as nat, buf: Seq::empty(), stopped: false };
        let mut buf: Vec<char> = Vec::new();
        let mut stopped = false;
        let mut i: usize = 0;
        proof {
            assert(cs@.take(0) =~= Seq::<char>::empty());
        }
        while i < cs.len() && !stopped
            invariant
                hs == hscroll as nat,
                wd == width as nat,
                i <= cs@.len(),
                ({
                    let p = draw_chars(p0, cs@.take(i as int), hs, wd);
                    &&& column == p.column
                    &&& emitted == p.emitted
                    &&& buf@ == p.buf
                    &&& stopped == p.stopped
                    &&& pen_ok(p, hs, wd)
                }),
            decreases cs@.len() - i,
        {
            let ch = cs[i];
            let ghost p = draw_chars(p0, cs@.take(i as int), hs, wd);
            proof {
                assert(cs@.take(i + 1).drop_last() =~= cs@.take(i as int));
                assert(cs@.take(i + 1).last() == ch);
            }
            if ch == '\t' {
                // Emitted one column at a time so a horizontal scroll can
                // land in the middle of a tab.
                let stop = TABSTOP - ((column % (TABSTOP as u128)) as usize);
                proof {
                    assert((column % (TABSTOP as u128)) as nat == p.column % (TABSTOP as nat));
                    lemma_tab_columns_ok(p, stop as nat, hs, wd);
                }
                stopped = draw_tab(&mut column, &mut emitted, &mut buf, stop, hscroll, width);
            } else {
                let (g, w): (char, u128) = if is_control(ch) {
                    ('\u{b7}', 1)
                } else {
                    (
                        ch,
                        match char_width(ch) {
                            Some(w) => w as u128,
                            None => 1,
                        },
                    )
                };
                if column >= hscroll as u128 {
                    // Never write a wide character that would straddle the edge.
                    if emitted + w > width as u128 {
                        stopped = true;
                    } else {
                        buf.push(g);
                        emitted = emitted + w;
                        column = column + w;
                    }
                } else {
                    column = column + w;
                }
            }
            i = i + 1;
        }
        proof {
            if stopped {
                lemma_chars_stopped(p0, cs@, i as int, hs, wd);
            } else {
                assert(cs@.take(i as int) =~= cs@);
            }
            assert(rm[ri as int].0 == cs@);
        }
        if buf.len() > 0 {
            out.push((crate::text::string_of(&buf), style));
        }
        ri = ri + 1;
        if stopped {
            proof {
                lemma_laid_stopped(rm, ri as int, hs, wd);
            }
            return out;
        }
    }
    out
}

pub open spec fn runs_model<S>(runs: Seq<(String, S)>) -> Seq<(Seq<char>, S)> {
    Seq::new(runs.len(), |k: int| (runs[k].0@, runs[k].1))
}

// ------------------------------------------------------------ cell text

/// A cell's marks: its word-level emphasis, then the search hits, ordered
/// by where they start; the order is stable, so later marks still win
/// where they overlap.
pub open spec fn cell_marks<S>(emphasis: Seq<(usize, usize)>, hits: Seq<(usize, usize)>, emph: S, hit: S) -> Seq<(usize, usize, S)> {
    let all = Seq::new(emphasis.len(), |i: int| (emphasis[i].0, emphasis[i].1, emph)) + Seq::new(
        hits.len(),
        |i: int| (hits[i].0, hits[i].1, hit),
    );
    let order = Seq::new(all.len(), |i: int| (all[i].0, i as usize)).sort_by(pair_leq());
    Seq::new(order.len(), |k: int| all[order[k].1 as int])
}

/// What a diff cell shows: its text cut at the emphasis and at the search
/// hits for `query` (search hits outrank word-level emphasis), then laid
/// out from column `hscroll` in `width` columns.
pub open spec fn cell_runs_spec<S>(
    text: Seq<char>,
    emphasis: Seq<(usize, usize)>,
    query: Seq<char>,
    base: S,
    emph: S,
    hit: S,
    hscroll: usize,
    width: usize,
) -> Seq<(Seq<char>, S)> {
    layout_spec(
        split_runs_spec(text, base, cell_marks(emphasis, find_all_spec(text, query), emph, hit)),
        hscroll,
        width,
    )
}

pub fn cell_runs<S: Copy>(
    text: &str,
    emphasis: &[(usize, usize)],
    query: &str,
    base: S,
    emph: S,
    hit: S,
    hscroll: usize,
    width: usize,
) -> (r: Vec<(String, S)>)
    ensures
        runs_model(r@) == cell_runs_spec(text@, emphasis@, query@, base, emph, hit, hscroll, width),
{
    let hits = find_all(text, query);
    let ghost all = Seq::new(emphasis@.len(), |i: int| (emphasis@[i].0, emphasis@[i].1, emph)) + Seq::new(
        hits@.len(),
        |i: int| (hits@[i].0, hits@[i].1, hit),
    );
    let mut marks: Vec<(usize, usize, S)> = Vec::new();
    let mut i: usize = 0;
    while i < emphasis.len()
        invariant
            i <= emphasis@.len(),
            marks@ == all.take(i as int),
            all == Seq::new(emphasis@.len(), |i: int| (emphasis@[i].0, emphasis@[i].1, emph)) + Seq::new(
                hits@.len(),
                |i: int| (hits@[i].0, hits@[i].1, hit),
            ),
        decreases emphasis@.len() - i,
    {
        marks.push((emphasis[i].0, emphasis[i].1, emph));
        proof {
            assert(marks@ =~= all.take(i + 1));
        }
        i = i + 1;
    }
    let mut j: usize = 0;
    while j < hits.len()
        invariant
            j <= hits@.len(),
            marks@ == all.take(emphasis@.len() + j),
            all == Seq::new(emphasis@.len(), |i: int| (emphasis@[i].0, emphasis@[i].1, emph)) + Seq::new(
                hits@.len(),
                |i: int| (hits@[i].0, hits@[i].1, hit),
            ),
        decreases hits@.len() - j,
    {
        marks.push((hits[j].0, hits[j].1, hit));
        proof {
            assert(marks@ =~= all.take(emphasis@.len() + j + 1));
        }
        j = j + 1;
    }
    proof {
        assert(all.take(all.len() as int) =~= all);
    }
    // Later marks win where they overlap: order by start, keeping the
    // order of marks that start together.
    let ghost keys_spec = Seq::new(all.len(), |i: int| (all[i].0, i as usize));
    let mut keys: Vec<(usize, usize)> = Vec::new();
    let mut k: usize = 0;
    while k < marks.len()
        invariant
            marks@ == all,
            k <= marks@.len(),
            keys_spec == Seq::new(all.len(), |i: int| (all[i].0, i as usize)),
            keys@ == keys_spec.take(k as int),
        decreases marks@.len() - k,
    {
        keys.push((marks[k].0, k));
        proof {
            assert(keys@ =~= keys_spec.take(k + 1));
        }
        k = k + 1;
    }
    proof {
        assert(keys_spec.take(k as int) =~= keys_spec);
    }
    let order = sort_pairs(&keys);
    proof {
        crate::sort::lemma_pair_leq_total();
        keys_spec.lemma_sort_by_ensures(pair_leq());
        assert(order@.len() == keys_spec.len()) by {
            assert(order@.to_multiset().len() == keys_spec.to_multiset().len());
            keys_spec.to_multiset_ensures();
            order@.to_multiset_ensures();
        }
    }
    let mut sorted: Vec<(usize, usize, S)> = Vec::new();
    let mut q: usize = 0;
    while q < order.len()
        invariant
            marks@ == all,
            order@ == keys_spec.sort_by(pair_leq()),
            keys_spec == Seq::new(all.len(), |i: int| (all[i].0, i as usize)),
            forall|x: (usize, usize)| !keys_spec.contains(x) ==> !(#[trigger] order@.contains(x)),
            q <= order@.len(),
            sorted@ == Seq::new(q as nat, |t: int| all[order@[t].1 as int]),
        decreases order@.len() - q,
    {
        let (_, idx) = order[q];
        proof {
            assert(order@.contains(order@[q as int]));
            assert(keys_spec.contains(order@[q as int]));
            let w = choose|w: int| 0 <= w < keys_spec.len() && keys_spec[w] == order@[q as int];
            assert(idx == w);
        }
        sorted.push(marks[idx]);
        proof {
            assert(sorted@ =~= Seq::new((q + 1) as nat, |t: int| all[order@[t].1 as int]));
        }
        q = q + 1;
    }
    proof {
        assert(sorted@ =~= cell_marks(emphasis@, hits@, emph, hit));
    }
    let runs = split_runs(text, base, sorted.as_slice());
    proof {
        assert(runs_model(runs@) =~= split_runs_spec(text@, base, sorted@));
    }
    let r = layout(runs.as_slice(), hscroll, width);
    proof {
        assert(runs_model(r@) =~= layout_spec(runs_model(runs@), hscroll, width));
    }
    r
}

// ---------------------------------------------------------------- overlays

/// A screen rectangle, in terminal cells.
#[derive(Debug, Clone, Copy, PartialEq, Eq, Structural)]
pub struct Rect {
    pub x: u16,
    pub y: u16,
    pub width: u16,
    pub height: u16,
}

/// Telescope's default geometry: `pct_w` percent wide and `pct_h` percent
/// tall, centred in `area`.
pub fn centered(area: Rect, pct_w: u16, pct_h: u16) -> (r: Rect)
    requires
        area.width * pct_w <= u16::MAX,
        area.height * pct_h <= u16::MAX,
        pct_w <= 100,
        pct_h <= 100,
        area.x + area.width <= u16::MAX,
        area.y + area.height <= u16::MAX,
    ensures
        r.width == area.width * pct_w / 100,
        r.height == area.height * pct_h / 100,
        r.x == area.x + (area.width - r.width) / 2,
        r.y == area.y + (area.height - r.height) / 2,
{
    let w = area.width * pct_w / 100;
    let h = area.height * pct_h / 100;
    assert(w <= area.width) by (nonlinear_arith)
        requires
            w == area.width * pct_w / 100,
            pct_w <= 100,
    {}
    assert(h <= area.height) by (nonlinear_arith)
        requires
            h == area.height * pct_h / 100,
            pct_h <= 100,
    {}
    Rect { x: area.x + (area.width - w) / 2, y: area.y + (area.height - h) / 2, width: w, height: h }
}

} // verus!
