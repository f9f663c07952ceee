//! Turns two versions of a file into rows that the two panes share.
//!
//! The key invariant: the left and right panes render the *same* row range, so
//! a single scroll offset keeps them aligned. Rows where only one side exists
//! carry a `None` on the other side and render as filler.
use vstd::prelude::*;
use vstd::string::StringSliceAdditionalSpecFns;
use vstd::relations::*;
use crate::sort::{pair_leq, sort_pairs};
use crate::text::{lemma_split_nonempty, split_char, split_spec};
use similar::{ChangeTag, DiffTag, TextDiff};

verus! {

// ------------------------------------------------------------------ types

/// A single displayable line on one side.
#[derive(Debug)]
pub struct Cell {
    /// 1-based line number in that side's file.
    pub number: usize,
    pub text: String,
    /// Byte ranges within `text` that differ from the other side, used for
    /// word-level highlighting. Empty when the whole line is new or gone.
    pub emphasis: Vec<(usize, usize)>,
}

/// What a `Cell` holds, as mathematical values.
pub struct CellModel {
    pub number: nat,
    pub text: Seq<char>,
    pub emphasis: Seq<(usize, usize)>,
}

impl View for Cell {
    type V = CellModel;

    open spec fn view(&self) -> CellModel {
        CellModel { number: self.number as nat, text: self.text@, emphasis: self.emphasis@ }
    }
}

pub open spec fn opt_cell(c: Option<Cell>) -> Option<CellModel> {
    match c {
        Some(c) => Some(c@),
        None => None,
    }
}

/// A copy of `v`, element by element.
pub fn copy_pairs(v: &Vec<(usize, usize)>) -> (r: Vec<(usize, usize)>)
    ensures
        r@ == v@,
{
    let mut r: Vec<(usize, usize)> = Vec::new();
    let mut i: usize = 0;
    while i < v.len()
        invariant
            i <= v.len(),
            r@ == v@.take(i as int),
        decreases v.len() - i,
    {
        r.push(v[i]);
        i = i + 1;
        proof {
            assert(r@ =~= v@.take(i as int));
        }
    }
    proof {
        assert(v@.take(i as int) =~= v@);
    }
    r
}

impl Clone for Cell {
    fn clone(&self) -> (r: Self)
        ensures
            r@ == self@,
    {
        Cell { number: self.number, text: self.text.clone(), emphasis: copy_pairs(&self.emphasis) }
    }
}

impl Cell {
    pub fn plain(number: usize, text: &String) -> (r: Self)
        ensures
            r@ == plain_cell(number as int, text@),
    {
        Cell { number, text: text.clone(), emphasis: Vec::new() }
    }
}

/// A cell with no word-level emphasis.
pub open spec fn plain_cell(number: int, text: Seq<char>) -> CellModel {
    CellModel { number: number as nat, text, emphasis: Seq::empty() }
}

#[derive(Debug, Clone, Copy, PartialEq, Eq, Structural)]
pub enum RowKind {
    /// Identical on both sides.
    Context,
    /// Present on both sides but modified.
    Changed,
    /// Only on the left.
    Removed,
    /// Only on the right.
    Added,
    /// The `@@ ... @@` gap between hunks.
    Separator,
}

#[derive(Debug)]
pub struct Row {
    pub kind: RowKind,
    pub old: Option<Cell>,
    pub new: Option<Cell>,
    /// Index into [`Document::hunks`] that this row belongs to.
    pub hunk: usize,
}

/// What a `Row` holds, as mathematical values.
pub struct RowModel {
    pub kind: RowKind,
    pub old: Option<CellModel>,
    pub new: Option<CellModel>,
    pub hunk: nat,
}

impl View for Row {
    type V = RowModel;

    open spec fn view(&self) -> RowModel {
        RowModel {
            kind: self.kind,
            old: opt_cell(self.old),
            new: opt_cell(self.new),
            hunk: self.hunk as nat,
        }
    }
}

fn copy_cell(c: &Option<Cell>) -> (r: Option<Cell>)
    ensures
        opt_cell(r) == opt_cell(*c),
{
    match c {
        Some(c) => Some(c.clone()),
        None => None,
    }
}

impl Clone for Row {
    fn clone(&self) -> (r: Self)
        ensures
            r@ == self@,
    {
        Row { kind: self.kind, old: copy_cell(&self.old), new: copy_cell(&self.new), hunk: self.hunk }
    }
}

/// The text a row is searched by: the new side if present, else the old.
pub open spec fn search_text_spec(r: RowModel) -> Seq<char> {
    match (r.new, r.old) {
        (Some(c), _) => c.text,
        (None, Some(c)) => c.text,
        (None, None) => Seq::empty(),
    }
}

/// The line an editor opens at: the new side's number, else the old, else 1.
pub open spec fn editor_line_spec(r: RowModel) -> nat {
    match (r.new, r.old) {
        (Some(c), _) => c.number,
        (None, Some(c)) => c.number,
        (None, None) => 1,
    }
}

impl Row {
    /// Text used by in-file search and the line picker: whichever side carries
    /// the meaning of this row.
    pub fn search_text(&self) -> (r: &str)
        ensures
            r@ == search_text_spec(self@),
    {
        match (&self.new, &self.old) {
            (Some(c), _) => c.text.as_str(),
            (None, Some(c)) => c.text.as_str(),
            (None, None) => {
                proof {
                    reveal_strlit("");
                }
                ""
            },
        }
    }

    /// Line number to jump to when opening this row in an editor.
    pub fn editor_line(&self) -> (r: usize)
        ensures
            r == editor_line_spec(self@),
    {
        match (&self.new, &self.old) {
            (Some(c), _) => c.number,
            (None, Some(c)) => c.number,
            (None, None) => 1,
        }
    }
}

#[derive(Debug, Clone, Copy, PartialEq, Eq, Structural)]
pub enum Body {
    Text,
    Binary,
    /// Both sides are byte-identical -- can happen for mode-only changes.
    Identical,
}

#[derive(Debug, Clone)]
pub struct Document {
    pub rows: Vec<Row>,
    /// Row index where each hunk starts, for `]c` / `[c`.
    pub hunks: Vec<usize>,
    pub added: usize,
    pub removed: usize,
    pub body: Body,
}

/// What a `Document` holds, as mathematical values.
pub struct DocModel {
    pub rows: Seq<RowModel>,
    pub hunks: Seq<usize>,
    pub added: nat,
    pub removed: nat,
    pub body: Body,
}

pub open spec fn rows_model(rows: Seq<Row>) -> Seq<RowModel> {
    Seq::new(rows.len(), |i: int| rows[i]@)
}

impl View for Document {
    type V = DocModel;

    open spec fn view(&self) -> DocModel {
        DocModel {
            rows: rows_model(self.rows@),
            hunks: self.hunks@,
            added: self.added as nat,
            removed: self.removed as nat,
            body: self.body,
        }
    }
}

// --------------------------------------------------------- hunk stepping

/// Index of the first hunk start after `from`, searching from index `i`;
/// `h.len()` when there is none.
pub open spec fn first_after(h: Seq<usize>, from: usize, i: int) -> int
    decreases h.len() - i,
{
    if i >= h.len() || i < 0 {
        h.len() as int
    } else if h[i] > from {
        i
    } else {
        first_after(h, from, i + 1)
    }
}

/// Index of the last hunk start before `from` among the first `j`; `-1` when
/// there is none.
pub open spec fn last_before(h: Seq<usize>, from: usize, j: int) -> int
    decreases j,
{
    if j <= 0 || j > h.len() {
        -1
    } else if h[j - 1] < from {
        j - 1
    } else {
        last_before(h, from, j - 1)
    }
}

pub proof fn lemma_first_after(h: Seq<usize>, from: usize, i: int)
    requires
        0 <= i <= h.len(),
    ensures
        i <= first_after(h, from, i) <= h.len(),
        first_after(h, from, i) < h.len() ==> h[first_after(h, from, i)] > from,
        forall|k: int| i <= k < first_after(h, from, i) ==> h[k] <= from,
    decreases h.len() - i,
{
    if i < h.len() && h[i] <= from {
        lemma_first_after(h, from, i + 1);
    }
}

pub proof fn lemma_last_before(h: Seq<usize>, from: usize, j: int)
    requires
        0 <= j <= h.len(),
    ensures
        -1 <= last_before(h, from, j) < j,
        last_before(h, from, j) >= 0 ==> h[last_before(h, from, j)] < from,
        forall|k: int| last_before(h, from, j) < k < j ==> h[k] >= from,
    decreases j,
{
    if j > 0 && h[j - 1] >= from {
        lemma_last_before(h, from, j - 1);
    }
}

/// Where `]c` (forward) or `[c` lands from row `from`: the nearest hunk start
/// strictly past `from` in that direction, or, wrapping, the first or last
/// hunk start. The flag says whether the search wrapped.
pub open spec fn step_hunk_spec(h: Seq<usize>, from: usize, forward: bool) -> Option<(usize, bool)> {
    if h.len() == 0 {
        None
    } else if forward {
        let i = first_after(h, from, 0);
        if i < h.len() {
            Some((h[i], false))
        } else {
            Some((h[0], true))
        }
    } else {
        let j = last_before(h, from, h.len() as int);
        if j >= 0 {
            Some((h[j], false))
        } else {
            Some((h.last(), true))
        }
    }
}

/// `]c` lands on the first hunk start past `from`, or wraps to the first
/// hunk; `[c` lands on the last hunk start before `from`, or wraps to the
/// last hunk; with no hunks there is nowhere to go.
pub proof fn hunk_steps_land_on_the_nearest_hunk(h: Seq<usize>, from: usize)
    ensures
        h.len() == 0 ==> step_hunk_spec(h, from, true) is None && step_hunk_spec(h, from, false) is None,
        (exists|k: int| 0 <= k < h.len() && #[trigger] h[k] > from) ==> exists|i: int|
            0 <= i < h.len() && step_hunk_spec(h, from, true) == Some((#[trigger] h[i], false)) && h[i] > from
                && forall|k: int| 0 <= k < i ==> h[k] <= from,
        h.len() > 0 && (forall|k: int| 0 <= k < h.len() ==> #[trigger] h[k] <= from) ==> step_hunk_spec(h, from, true)
            == Some((h[0], true)),
        (exists|k: int| 0 <= k < h.len() && #[trigger] h[k] < from) ==> exists|j: int|
            0 <= j < h.len() && step_hunk_spec(h, from, false) == Some((#[trigger] h[j], false)) && h[j] < from
                && forall|k: int| j < k < h.len() ==> h[k] >= from,
        h.len() > 0 && (forall|k: int| 0 <= k < h.len() ==> #[trigger] h[k] >= from) ==> step_hunk_spec(h, from, false)
            == Some((h[h.len() - 1], true)),
{
    lemma_first_after(h, from, 0);
    lemma_last_before(h, from, h.len() as int);
    let i = first_after(h, from, 0);
    let j = last_before(h, from, h.len() as int);
    if exists|k: int| 0 <= k < h.len() && #[trigger] h[k] > from {
        let k = choose|k: int| 0 <= k < h.len() && #[trigger] h[k] > from;
        assert(i < h.len());
        assert(step_hunk_spec(h, from, true) == Some((h[i], false)));
    }
    if exists|k: int| 0 <= k < h.len() && #[trigger] h[k] < from {
        let k = choose|k: int| 0 <= k < h.len() && #[trigger] h[k] < from;
        assert(j >= 0);
        assert(step_hunk_spec(h, from, false) == Some((h[j], false)));
    }
}

impl Document {
    /// The hunk start to jump to from row `from`.
    ///
    /// Returns the target row and whether the search wrapped past an end.
    /// `None` when the file has no hunks at all.
    pub fn step_hunk(&self, from: usize, forward: bool) -> (r: Option<(usize, bool)>)
        ensures
            r == step_hunk_spec(self.hunks@, from, forward),
    {
        let h = &self.hunks;
        if h.len() == 0 {
            return None;
        }
        if forward {
            let mut i: usize = 0;
            while i < h.len() && h[i] <= from
                invariant
                    i <= h.len(),
                    first_after(h@, from, i as int) == first_after(h@, from, 0),
                decreases h.len() - i,
            {
                i = i + 1;
            }
            if i < h.len() {
                Some((h[i], false))
            } else {
                Some((h[0], true))
            }
        } else {
            let mut j: usize = h.len();
            while j > 0 && h[j - 1] >= from
                invariant
                    j <= h.len(),
                    last_before(h@, from, j as int) == last_before(h@, from, h.len() as int),
                decreases j,
            {
                j = j - 1;
            }
            if j > 0 {
                Some((h[j - 1], false))
            } else {
                Some((h[h.len() - 1], true))
            }
        }
    }

    /// An empty document flagged as binary.
    pub fn binary() -> (r: Self)
        ensures
            r@.rows.len() == 0,
            r@.hunks.len() == 0,
            r@.added == 0,
            r@.removed == 0,
            r@.body == Body::Binary,
    {
        Document { rows: Vec::new(), hunks: Vec::new(), added: 0, removed: 0, body: Body::Binary }
    }
}

// -------------------------------------------------------- splitting lines

/// Lines *without* terminators, keeping any `\r` so that a line-ending
/// change still registers as a change. A trailing newline does not start a
/// further, empty line.
pub open spec fn lines_spec(s: Seq<char>) -> Seq<Seq<char>> {
    if s.len() == 0 {
        Seq::empty()
    } else {
        let p = split_spec(s, '\n');
        if p.last().len() == 0 {
            p.drop_last()
        } else {
            p
        }
    }
}

pub open spec fn strings_model(v: Seq<String>) -> Seq<Seq<char>> {
    Seq::new(v.len(), |i: int| v[i]@)
}

/// Split into lines *without* terminators, keeping any `\r`.
pub fn split_lines(s: &str) -> (r: Vec<String>)
    ensures
        strings_model(r@) == lines_spec(s@),
{
    if s.is_empty() {
        proof {
            assert(strings_model(Seq::<String>::empty()) =~= Seq::<Seq<char>>::empty());
        }
        return Vec::new();
    }
    let mut v = split_char(s, '\n');
    let ghost p = split_spec(s@, '\n');
    proof {
        assert(strings_model(v@) =~= p);
        lemma_split_nonempty(s@, '\n');
    }
    let n = v.len();
    assert(n > 0);
    assert(strings_model(v@)[n - 1] == v@[n - 1]@);
    if n > 0 && v[n - 1].as_str().is_empty() {
        v.pop();
        proof {
            assert(strings_model(v@) =~= p.drop_last());
        }
    }
    v
}

// ------------------------------------------------------ word-level emphasis

/// One change of a word-level diff: its kind and the byte length of the
/// token it covers.
#[derive(Debug, Clone, Copy, PartialEq, Eq, Structural)]
pub enum ChangeKind {
    Equal,
    Delete,
    Insert,
}

/// Bytes of the old line that the changes cover (equal and deleted tokens).
pub open spec fn old_bytes(cs: Seq<(ChangeKind, usize)>) -> nat
    decreases cs.len(),
{
    if cs.len() == 0 {
        0
    } else {
        old_bytes(cs.drop_last()) + if cs.last().0 != ChangeKind::Insert {
            cs.last().1 as nat
        } else {
            0
        }
    }
}

/// Bytes of the new line that the changes cover (equal and inserted tokens).
pub open spec fn new_bytes(cs: Seq<(ChangeKind, usize)>) -> nat
    decreases cs.len(),
{
    if cs.len() == 0 {
        0
    } else {
        new_bytes(cs.drop_last()) + if cs.last().0 != ChangeKind::Delete {
            cs.last().1 as nat
        } else {
            0
        }
    }
}

/// Bytes that both lines share.
pub open spec fn equal_bytes(cs: Seq<(ChangeKind, usize)>) -> nat
    decreases cs.len(),
{
    if cs.len() == 0 {
        0
    } else {
        equal_bytes(cs.drop_last()) + if cs.last().0 == ChangeKind::Equal {
            cs.last().1 as nat
        } else {
            0
        }
    }
}

/// Byte ranges of the old line that were deleted, in order.
pub open spec fn deleted_ranges(cs: Seq<(ChangeKind, usize)>) -> Seq<(usize, usize)>
    decreases cs.len(),
{
    if cs.len() == 0 {
        Seq::empty()
    } else {
        let p = cs.drop_last();
        if cs.last().0 == ChangeKind::Delete {
            deleted_ranges(p).push(
                (old_bytes(p) as usize, (old_bytes(p) + cs.last().1) as usize),
            )
        } else {
            deleted_ranges(p)
        }
    }
}

/// Byte ranges of the new line that were inserted, in order.
pub open spec fn inserted_ranges(cs: Seq<(ChangeKind, usize)>) -> Seq<(usize, usize)>
    decreases cs.len(),
{
    if cs.len() == 0 {
        Seq::empty()
    } else {
        let p = cs.drop_last();
        if cs.last().0 == ChangeKind::Insert {
            inserted_ranges(p).push(
                (new_bytes(p) as usize, (new_bytes(p) + cs.last().1) as usize),
            )
        } else {
            inserted_ranges(p)
        }
    }
}

/// Sorted ranges with touching or overlapping neighbours collapsed into one.
pub open spec fn merge_sorted(s: Seq<(usize, usize)>) -> Seq<(usize, usize)>
    decreases s.len(),
{
    if s.len() == 0 {
        Seq::empty()
    } else {
        let m = merge_sorted(s.drop_last());
        let r = s.last();
        if m.len() > 0 && r.0 <= m.last().1 {
            m.update(
                m.len() - 1,
                (m.last().0, if m.last().1 >= r.1 {
                    m.last().1
                } else {
                    r.1
                }),
            )
        } else {
            m.push(r)
        }
    }
}

/// What `merge` returns: fewer than two ranges are left as they are;
/// otherwise the ranges are sorted and touching ones collapsed.
pub open spec fn merge_spec(s: Seq<(usize, usize)>) -> Seq<(usize, usize)> {
    if s.len() < 2 {
        s
    } else {
        merge_sorted(s.sort_by(pair_leq()))
    }
}

/// Lines below 3/10 similarity (twice the shared bytes over all bytes) get
/// no word-level highlight: a wholly rewritten line produces confetti rather
/// than a useful signal.
pub open spec fn too_dissimilar(cs: Seq<(ChangeKind, usize)>) -> bool {
    let total = old_bytes(cs) + new_bytes(cs);
    total != 0 && 20 * equal_bytes(cs) < 3 * total
}

/// The emphasis of each side, from the word-level changes between them.
pub open spec fn emphasis_spec(cs: Seq<(ChangeKind, usize)>) -> (Seq<(usize, usize)>, Seq<
    (usize, usize),
>) {
    if too_dissimilar(cs) {
        (Seq::empty(), Seq::empty())
    } else {
        (merge_spec(deleted_ranges(cs)), merge_spec(inserted_ranges(cs)))
    }
}

/// Byte `x` of the old line lies in a token that was deleted.
pub open spec fn deleted_at(cs: Seq<(ChangeKind, usize)>, x: int) -> bool {
    exists|k: int|
        #![trigger cs[k]]
        0 <= k < cs.len() && cs[k].0 == ChangeKind::Delete && old_bytes(cs.take(k)) <= x < old_bytes(cs.take(k)) + cs[k].1
}

/// Byte `x` of the new line lies in a token that was inserted.
pub open spec fn inserted_at(cs: Seq<(ChangeKind, usize)>, x: int) -> bool {
    exists|k: int|
        #![trigger cs[k]]
        0 <= k < cs.len() && cs[k].0 == ChangeKind::Insert && new_bytes(cs.take(k)) <= x < new_bytes(cs.take(k)) + cs[k].1
}

/// Every range of `s` is well formed, ends by `limit`, and covers only
/// bytes for which `at` holds.
pub open spec fn marks(s: Seq<(usize, usize)>, limit: nat, at: spec_fn(int) -> bool) -> bool {
    forall|i: int|
        0 <= i < s.len() ==> (#[trigger] s[i]).0 <= s[i].1 <= limit && forall|x: int| s[i].0 <= x < s[i].1 ==> #[trigger] at(x)
}

proof fn lemma_marks_weaken(s: Seq<(usize, usize)>, l1: nat, l2: nat, f: spec_fn(int) -> bool, g: spec_fn(int) -> bool)
    requires
        marks(s, l1, f),
        l1 <= l2,
        forall|x: int| #[trigger] f(x) ==> g(x),
    ensures
        marks(s, l2, g),
{
    assert forall|i: int| 0 <= i < s.len() implies (#[trigger] s[i]).0 <= s[i].1 <= l2
        && forall|x: int| s[i].0 <= x < s[i].1 ==> #[trigger] g(x) by {
        assert forall|x: int| s[i].0 <= x < s[i].1 implies #[trigger] g(x) by {
            assert(f(x));
        }
    }
}

proof fn lemma_deleted_ranges_mark(cs: Seq<(ChangeKind, usize)>)
    requires
        old_bytes(cs) <= usize::MAX,
    ensures
        marks(deleted_ranges(cs), old_bytes(cs), |x: int| deleted_at(cs, x)),
    decreases cs.len(),
{
    if cs.len() > 0 {
        let p = cs.drop_last();
        lemma_deleted_ranges_mark(p);
        assert forall|x: int| deleted_at(p, x) implies deleted_at(cs, x) by {
            let k = choose|k: int|
                #![trigger p[k]]
                0 <= k < p.len() && p[k].0 == ChangeKind::Delete && old_bytes(p.take(k)) <= x < old_bytes(p.take(k)) + p[k].1;
            assert(p.take(k) =~= cs.take(k));
            assert(cs[k] == p[k]);
        }
        lemma_marks_weaken(deleted_ranges(p), old_bytes(p), old_bytes(cs), |x: int| deleted_at(p, x), |x: int| deleted_at(cs, x));
        if cs.last().0 == ChangeKind::Delete {
            let k = cs.len() - 1;
            assert(cs.take(k) =~= p);
            assert forall|x: int| old_bytes(p) <= x < old_bytes(p) + cs.last().1 implies deleted_at(cs, x) by {
                assert(cs[k] == cs.last());
            }
        }
    }
}

proof fn lemma_inserted_ranges_mark(cs: Seq<(ChangeKind, usize)>)
    requires
        new_bytes(cs) <= usize::MAX,
    ensures
        marks(inserted_ranges(cs), new_bytes(cs), |x: int| inserted_at(cs, x)),
    decreases cs.len(),
{
    if cs.len() > 0 {
        let p = cs.drop_last();
        lemma_inserted_ranges_mark(p);
        assert forall|x: int| inserted_at(p, x) implies inserted_at(cs, x) by {
            let k = choose|k: int|
                #![trigger p[k]]
                0 <= k < p.len() && p[k].0 == ChangeKind::Insert && new_bytes(p.take(k)) <= x < new_bytes(p.take(k)) + p[k].1;
            assert(p.take(k) =~= cs.take(k));
            assert(cs[k] == p[k]);
        }
        lemma_marks_weaken(inserted_ranges(p), new_bytes(p), new_bytes(cs), |x: int| inserted_at(p, x), |x: int| inserted_at(cs, x));
        if cs.last().0 == ChangeKind::Insert {
            let k = cs.len() - 1;
            assert(cs.take(k) =~= p);
            assert forall|x: int| new_bytes(p) <= x < new_bytes(p) + cs.last().1 implies inserted_at(cs, x) by {
                assert(cs[k] == cs.last());
            }
        }
    }
}

proof fn lemma_merge_sorted_marks(s: Seq<(usize, usize)>, limit: nat, f: spec_fn(int) -> bool)
    requires
        marks(s, limit, f),
    ensures
        marks(merge_sorted(s), limit, f),
    decreases s.len(),
{
    if s.len() > 0 {
        let p = s.drop_last();
        assert(marks(p, limit, f)) by {
            assert forall|i: int| 0 <= i < p.len() implies (#[trigger] p[i]).0 <= p[i].1 <= limit
                && forall|x: int| p[i].0 <= x < p[i].1 ==> #[trigger] f(x) by {
                assert(p[i] == s[i]);
            }
        }
        lemma_merge_sorted_marks(p, limit, f);
        let m = merge_sorted(p);
        let r = s.last();
        assert(r == s[s.len() - 1]);
        if m.len() > 0 && r.0 <= m.last().1 {
            let a = m.last();
            assert(a == m[m.len() - 1]);
        }
    }
}

proof fn lemma_merge_spec_marks(s: Seq<(usize, usize)>, limit: nat, f: spec_fn(int) -> bool)
    requires
        marks(s, limit, f),
    ensures
        marks(merge_spec(s), limit, f),
{
    if s.len() >= 2 {
        crate::sort::lemma_pair_leq_total();
        s.lemma_sort_by_ensures(pair_leq());
        let t = s.sort_by(pair_leq());
        assert(marks(t, limit, f)) by {
            assert forall|i: int| 0 <= i < t.len() implies (#[trigger] t[i]).0 <= t[i].1 <= limit
                && forall|x: int| t[i].0 <= x < t[i].1 ==> #[trigger] f(x) by {
                assert(t.contains(t[i]));
                assert(s.contains(t[i]));
                let j = choose|j: int| 0 <= j < s.len() && s[j] == t[i];
                assert(s[j] == t[i]);
            }
        }
        lemma_merge_sorted_marks(t, limit, f);
    }
}

/// Byte `x` lies in one of the ranges of `s`.
pub open spec fn covers(s: Seq<(usize, usize)>, x: int) -> bool {
    exists|i: int| 0 <= i < s.len() && (#[trigger] s[i]).0 <= x < s[i].1
}

proof fn lemma_deleted_ranges_cover(cs: Seq<(ChangeKind, usize)>, x: int)
    requires
        old_bytes(cs) <= usize::MAX,
        deleted_at(cs, x),
    ensures
        covers(deleted_ranges(cs), x),
    decreases cs.len(),
{
    let p = cs.drop_last();
    let n = cs.len() - 1;
    let k = choose|k: int|
        #![trigger cs[k]]
        0 <= k < cs.len() && cs[k].0 == ChangeKind::Delete && old_bytes(cs.take(k)) <= x < old_bytes(cs.take(k)) + cs[k].1;
    let d = deleted_ranges(p);
    if k < n {
        assert(p.take(k) =~= cs.take(k));
        assert(p[k] == cs[k]);
        assert(deleted_at(p, x));
        lemma_deleted_ranges_cover(p, x);
        let i = choose|i: int| 0 <= i < d.len() && (#[trigger] d[i]).0 <= x < d[i].1;
        if cs.last().0 == ChangeKind::Delete {
            assert(deleted_ranges(cs)[i] == d[i]);
        }
    } else {
        assert(cs.take(k) =~= p);
        assert(cs[k] == cs.last());
        assert(deleted_ranges(cs)[d.len() as int] == (old_bytes(p) as usize, (old_bytes(p) + cs.last().1) as usize));
    }
}

proof fn lemma_inserted_ranges_cover(cs: Seq<(ChangeKind, usize)>, x: int)
    requires
        new_bytes(cs) <= usize::MAX,
        inserted_at(cs, x),
    ensures
        covers(inserted_ranges(cs), x),
    decreases cs.len(),
{
    let p = cs.drop_last();
    let n = cs.len() - 1;
    let k = choose|k: int|
        #![trigger cs[k]]
        0 <= k < cs.len() && cs[k].0 == ChangeKind::Insert && new_bytes(cs.take(k)) <= x < new_bytes(cs.take(k)) + cs[k].1;
    let d = inserted_ranges(p);
    if k < n {
        assert(p.take(k) =~= cs.take(k));
        assert(p[k] == cs[k]);
        assert(inserted_at(p, x));
        lemma_inserted_ranges_cover(p, x);
        let i = choose|i: int| 0 <= i < d.len() && (#[trigger] d[i]).0 <= x < d[i].1;
        if cs.last().0 == ChangeKind::Insert {
            assert(inserted_ranges(cs)[i] == d[i]);
        }
    } else {
        assert(cs.take(k) =~= p);
        assert(cs[k] == cs.last());
        assert(inserted_ranges(cs)[d.len() as int] == (new_bytes(p) as usize, (new_bytes(p) + cs.last().1) as usize));
    }
}

/// Merging sorted ranges starts its last range no later than the last
/// input range starts.
proof fn lemma_merge_sorted_last(s: Seq<(usize, usize)>)
    requires
        sorted_by(s, pair_leq()),
        s.len() > 0,
    ensures
        merge_sorted(s).len() > 0,
        merge_sorted(s).last().0 <= s.last().0,
    decreases s.len(),
{
    let p = s.drop_last();
    let r = s.last();
    let m = merge_sorted(p);
    if p.len() > 0 {
        assert(sorted_by(p, pair_leq())) by {
            assert forall|i: int, j: int| 0 <= i < j < p.len() implies (pair_leq())(p[i], p[j]) by {
                assert(p[i] == s[i] && p[j] == s[j]);
            }
        }
        lemma_merge_sorted_last(p);
        assert(p.last() == s[s.len() - 2]);
        assert((pair_leq())(s[s.len() - 2], s[s.len() - 1]));
        if r.0 <= m.last().1 {
            let mx = if m.last().1 >= r.1 { m.last().1 } else { r.1 };
            assert(merge_sorted(s) == m.update(m.len() - 1, (m.last().0, mx)));
            assert(merge_sorted(s).last() == (m.last().0, mx));
        } else {
            assert(merge_sorted(s) == m.push(r));
        }
    } else {
        assert(m.len() == 0);
        assert(merge_sorted(s) == m.push(r));
    }
}

proof fn lemma_merge_sorted_covers(s: Seq<(usize, usize)>, x: int)
    requires
        sorted_by(s, pair_leq()),
        covers(s, x),
    ensures
        covers(merge_sorted(s), x),
    decreases s.len(),
{
    let p = s.drop_last();
    let r = s.last();
    let m = merge_sorted(p);
    let i = choose|i: int| 0 <= i < s.len() && (#[trigger] s[i]).0 <= x < s[i].1;
    assert(sorted_by(p, pair_leq())) by {
        assert forall|a: int, b: int| 0 <= a < b < p.len() implies (pair_leq())(p[a], p[b]) by {
            assert(p[a] == s[a] && p[b] == s[b]);
        }
    }
    let out = merge_sorted(s);
    if i < s.len() - 1 {
        assert(p[i] == s[i]);
        lemma_merge_sorted_covers(p, x);
        let j = choose|j: int| 0 <= j < m.len() && (#[trigger] m[j]).0 <= x < m[j].1;
        if m.len() > 0 && r.0 <= m.last().1 {
            assert(out[j].0 <= x < out[j].1);
        } else {
            assert(out[j] == m[j]);
        }
    } else {
        assert(s[i] == r);
        if m.len() > 0 && r.0 <= m.last().1 {
            assert(p.len() > 0);
            lemma_merge_sorted_last(p);
            assert(p.last() == s[s.len() - 2]);
            assert((pair_leq())(s[s.len() - 2], s[s.len() - 1]));
            let mx = if m.last().1 >= r.1 { m.last().1 } else { r.1 };
            assert(out == m.update(m.len() - 1, (m.last().0, mx)));
            assert(out[m.len() - 1] == (m.last().0, mx));
            assert(out[m.len() - 1].0 <= x < out[m.len() - 1].1);
        } else {
            assert(out[m.len() as int] == r);
        }
    }
}

proof fn lemma_merge_spec_covers(s: Seq<(usize, usize)>, x: int)
    requires
        covers(s, x),
    ensures
        covers(merge_spec(s), x),
{
    if s.len() >= 2 {
        crate::sort::lemma_pair_leq_total();
        s.lemma_sort_by_ensures(pair_leq());
        let t = s.sort_by(pair_leq());
        let i = choose|i: int| 0 <= i < s.len() && (#[trigger] s[i]).0 <= x < s[i].1;
        s.to_multiset_ensures();
        t.to_multiset_ensures();
        assert(s.contains(s[i]));
        assert(s.to_multiset().count(s[i]) > 0);
        assert(t.to_multiset().count(s[i]) > 0);
        assert(t.contains(s[i]));
        let j = choose|j: int| 0 <= j < t.len() && t[j] == s[i];
        assert(t[j].0 <= x < t[j].1);
        lemma_merge_sorted_covers(t, x);
    }
}

/// A changed line that is not too dissimilar from its counterpart gets every
/// deleted byte highlighted on the old side and every inserted byte on the
/// new side; a too dissimilar one gets no highlight at all.
pub proof fn emphasis_marks_every_change(cs: Seq<(ChangeKind, usize)>)
    requires
        old_bytes(cs) <= usize::MAX,
        new_bytes(cs) <= usize::MAX,
    ensures
        too_dissimilar(cs) ==> emphasis_spec(cs).0.len() == 0 && emphasis_spec(cs).1.len() == 0,
        !too_dissimilar(cs) ==> forall|x: int| #[trigger] deleted_at(cs, x) ==> covers(emphasis_spec(cs).0, x),
        !too_dissimilar(cs) ==> forall|x: int| #[trigger] inserted_at(cs, x) ==> covers(emphasis_spec(cs).1, x),
{
    if !too_dissimilar(cs) {
        assert forall|x: int| #[trigger] deleted_at(cs, x) implies covers(emphasis_spec(cs).0, x) by {
            lemma_deleted_ranges_cover(cs, x);
            lemma_merge_spec_covers(deleted_ranges(cs), x);
        }
        assert forall|x: int| #[trigger] inserted_at(cs, x) implies covers(emphasis_spec(cs).1, x) by {
            lemma_inserted_ranges_cover(cs, x);
            lemma_merge_spec_covers(inserted_ranges(cs), x);
        }
    }
}

/// The highlight of each side of a changed line stays on that side: every
/// old-side range lies within the old line and covers only bytes of
/// deleted tokens, every new-side range lies within the new line and
/// covers only bytes of inserted tokens.
pub proof fn emphasis_marks_only_each_sides_changes(cs: Seq<(ChangeKind, usize)>)
    requires
        old_bytes(cs) <= usize::MAX,
        new_bytes(cs) <= usize::MAX,
    ensures
        marks(emphasis_spec(cs).0, old_bytes(cs), |x: int| deleted_at(cs, x)),
        marks(emphasis_spec(cs).1, new_bytes(cs), |x: int| inserted_at(cs, x)),
{
    if !too_dissimilar(cs) {
        lemma_deleted_ranges_mark(cs);
        lemma_inserted_ranges_mark(cs);
        lemma_merge_spec_marks(deleted_ranges(cs), old_bytes(cs), |x: int| deleted_at(cs, x));
        lemma_merge_spec_marks(inserted_ranges(cs), new_bytes(cs), |x: int| inserted_at(cs, x));
    }
}

/// Collapse touching ranges so highlighting doesn't flicker between adjacent
/// tokens that were both replaced.
pub fn merge(ranges: Vec<(usize, usize)>) -> (r: Vec<(usize, usize)>)
    ensures
        r@ == merge_spec(ranges@),
{
    if ranges.len() < 2 {
        return ranges;
    }
    let sorted = sort_pairs(&ranges);
    let mut out: Vec<(usize, usize)> = Vec::new();
    let mut i: usize = 0;
    while i < sorted.len()
        invariant
            i <= sorted.len(),
            out@ == merge_sorted(sorted@.take(i as int)),
        decreases sorted.len() - i,
    {
        let r = sorted[i];
        proof {
            assert(sorted@.take(i + 1).drop_last() =~= sorted@.take(i as int));
            assert(sorted@.take(i + 1).last() == r);
        }
        let n = out.len();
        if n > 0 && r.0 <= out[n - 1].1 {
            let last = out[n - 1];
            let end = if last.1 >= r.1 {
                last.1
            } else {
                r.1
            };
            out.set(n - 1, (last.0, end));
        } else {
            out.push(r);
        }
        i = i + 1;
    }
    proof {
        assert(sorted@.take(i as int) =~= sorted@);
    }
    out
}

proof fn lemma_bytes_step(cs: Seq<(ChangeKind, usize)>, i: int)
    requires
        0 <= i < cs.len(),
    ensures
        old_bytes(cs.take(i + 1)) == old_bytes(cs.take(i)) + if cs[i].0 != ChangeKind::Insert {
            cs[i].1 as nat
        } else {
            0
        },
        new_bytes(cs.take(i + 1)) == new_bytes(cs.take(i)) + if cs[i].0 != ChangeKind::Delete {
            cs[i].1 as nat
        } else {
            0
        },
        equal_bytes(cs.take(i + 1)) == equal_bytes(cs.take(i)) + if cs[i].0
            == ChangeKind::Equal {
            cs[i].1 as nat
        } else {
            0
        },
        deleted_ranges(cs.take(i + 1)) == if cs[i].0 == ChangeKind::Delete {
            deleted_ranges(cs.take(i)).push(
                (old_bytes(cs.take(i)) as usize, (old_bytes(cs.take(i)) + cs[i].1) as usize),
            )
        } else {
            deleted_ranges(cs.take(i))
        },
        inserted_ranges(cs.take(i + 1)) == if cs[i].0 == ChangeKind::Insert {
            inserted_ranges(cs.take(i)).push(
                (new_bytes(cs.take(i)) as usize, (new_bytes(cs.take(i)) + cs[i].1) as usize),
            )
        } else {
            inserted_ranges(cs.take(i))
        },
{
    assert(cs.take(i + 1).drop_last() =~= cs.take(i));
    assert(cs.take(i + 1).last() == cs[i]);
}

proof fn lemma_bytes_prefix(cs: Seq<(ChangeKind, usize)>, i: int)
    requires
        0 <= i <= cs.len(),
    ensures
        old_bytes(cs.take(i)) <= old_bytes(cs),
        new_bytes(cs.take(i)) <= new_bytes(cs),
        equal_bytes(cs.take(i)) <= old_bytes(cs.take(i)),
    decreases cs.len() - i,
{
    lemma_equal_le_old(cs.take(i));
    if i < cs.len() {
        lemma_bytes_prefix(cs, i + 1);
        lemma_bytes_step(cs, i);
    } else {
        assert(cs.take(i) =~= cs);
        lemma_equal_le_old(cs);
    }
}

proof fn lemma_equal_le_old(cs: Seq<(ChangeKind, usize)>)
    ensures
        equal_bytes(cs) <= old_bytes(cs),
    decreases cs.len(),
{
    if cs.len() > 0 {
        lemma_equal_le_old(cs.drop_last());
    }
}

/// Byte ranges that changed within a pair of lines, one list per side, from
/// the word-level changes between them. Empty lists when the lines are too
/// dissimilar for the highlight to mean anything.
pub fn emphasis_from_changes(cs: &Vec<(ChangeKind, usize)>) -> (r: (
    Vec<(usize, usize)>,
    Vec<(usize, usize)>,
))
    requires
        old_bytes(cs@) <= usize::MAX,
        new_bytes(cs@) <= usize::MAX,
    ensures
        (r.0@, r.1@) == emphasis_spec(cs@),
{
    let mut old_ranges: Vec<(usize, usize)> = Vec::new();
    let mut new_ranges: Vec<(usize, usize)> = Vec::new();
    let mut old_off: usize = 0;
    let mut new_off: usize = 0;
    let mut equal: usize = 0;
    let mut i: usize = 0;
    while i < cs.len()
        invariant
            i <= cs.len(),
            old_bytes(cs@) <= usize::MAX,
            new_bytes(cs@) <= usize::MAX,
            old_off == old_bytes(cs@.take(i as int)),
            new_off == new_bytes(cs@.take(i as int)),
            equal == equal_bytes(cs@.take(i as int)),
            old_ranges@ == deleted_ranges(cs@.take(i as int)),
            new_ranges@ == inserted_ranges(cs@.take(i as int)),
        decreases cs.len() - i,
    {
        let (tag, len) = cs[i];
        proof {
            lemma_bytes_step(cs@, i as int);
            lemma_bytes_prefix(cs@, i + 1);
        }
        match tag {
            ChangeKind::Equal => {
                equal = equal + len;
                old_off = old_off + len;
                new_off = new_off + len;
            },
            ChangeKind::Delete => {
                old_ranges.push((old_off, old_off + len));
                old_off = old_off + len;
            },
            ChangeKind::Insert => {
                new_ranges.push((new_off, new_off + len));
                new_off = new_off + len;
            },
        }
        i = i + 1;
    }
    proof {
        assert(cs@.take(i as int) =~= cs@);
    }
    let total: u128 = old_off as u128 + new_off as u128;
    if total != 0 && 20 * (equal as u128) < 3 * total {
        return (Vec::new(), Vec::new());
    }
    (merge(old_ranges), merge(new_ranges))
}


/// What `similar`'s word-level diff of two lines reports: each change's
/// kind and the byte length of its token.
pub uninterp spec fn word_changes_of(old_line: Seq<char>, new_line: Seq<char>) -> Seq<(ChangeKind, usize)>;

/// `TextDiff::from_words(old, new).iter_all_changes()`, each change read as
/// its tag and the byte length of its value. The tokens of a word diff cover
/// both inputs, so the changes account for every byte of each line; the
/// diff itself (Myers, no deadline) is named by `word_changes_of`.
#[verifier::external_body]
fn word_changes(old_line: &str, new_line: &str) -> (r: Vec<(ChangeKind, usize)>)
    ensures
        r@ == word_changes_of(old_line@, new_line@),
        old_bytes(r@) == old_line.spec_bytes().len() && old_bytes(r@) <= usize::MAX,
        new_bytes(r@) == new_line.spec_bytes().len() && new_bytes(r@) <= usize::MAX,
{
    let diff = TextDiff::from_words(old_line, new_line);
    diff.iter_all_changes().map(|c| {
        let tag = match c.tag() {
            ChangeTag::Equal => ChangeKind::Equal,
            ChangeTag::Delete => ChangeKind::Delete,
            ChangeTag::Insert => ChangeKind::Insert,
        };
        (tag, c.value().len())
    }).collect()
}

/// The emphasis of each side of a changed line pair.
pub open spec fn word_emphasis_spec(old_line: Seq<char>, new_line: Seq<char>) -> (Seq<(usize, usize)>, Seq<(usize, usize)>) {
    emphasis_spec(word_changes_of(old_line, new_line))
}

/// Byte ranges that changed within a pair of lines, one list per side.
///
/// Returns empty lists when the lines are too dissimilar for the highlight to
/// mean anything.
pub fn word_emphasis(old_line: &str, new_line: &str) -> (r: (Vec<(usize, usize)>, Vec<(usize, usize)>))
    ensures
        (r.0@, r.1@) == word_emphasis_spec(old_line@, new_line@),
        old_bytes(word_changes_of(old_line@, new_line@)) == old_line.spec_bytes().len(),
        new_bytes(word_changes_of(old_line@, new_line@)) == new_line.spec_bytes().len(),
        marks(r.0@, old_line.spec_bytes().len(), |x: int| deleted_at(word_changes_of(old_line@, new_line@), x)),
        marks(r.1@, new_line.spec_bytes().len(), |x: int| inserted_at(word_changes_of(old_line@, new_line@), x)),
        !too_dissimilar(word_changes_of(old_line@, new_line@)) ==> forall|x: int|
            #[trigger] deleted_at(word_changes_of(old_line@, new_line@), x) ==> covers(r.0@, x),
        !too_dissimilar(word_changes_of(old_line@, new_line@)) ==> forall|x: int|
            #[trigger] inserted_at(word_changes_of(old_line@, new_line@), x) ==> covers(r.1@, x),
{
    let cs = word_changes(old_line, new_line);
    proof {
        emphasis_marks_only_each_sides_changes(cs@);
        emphasis_marks_every_change(cs@);
    }
    emphasis_from_changes(&cs)
}

// -------------------------------------------------------------- line ops

#[derive(Debug, Clone, Copy, PartialEq, Eq, Structural)]
pub enum OpTag {
    Equal,
    Delete,
    Insert,
    Replace,
}

/// One diff operation over line indices: its kind, then the start and length
/// of its old range and of its new range (`similar::DiffOp::as_tag_tuple`).
pub type LineOp = (OpTag, usize, usize, usize, usize);

/// The ranges agree with the kind: an equal op spans as many lines on both
/// sides, a deletion none on the new side, an insertion none on the old.
pub open spec fn op_shape(o: LineOp) -> bool {
    match o.0 {
        OpTag::Equal => o.2 == o.4,
        OpTag::Delete => o.4 == 0,
        OpTag::Insert => o.2 == 0,
        OpTag::Replace => true,
    }
}

/// `o` is well shaped, lies within both sides, and an equal op pairs equal lines.
pub open spec fn op_sound(o: LineOp, old_lines: Seq<Seq<char>>, new_lines: Seq<Seq<char>>) -> bool {
    &&& op_shape(o)
    &&& o.1 + o.2 <= old_lines.len()
    &&& o.3 + o.4 <= new_lines.len()
    &&& o.0 == OpTag::Equal ==> forall|k: int| 0 <= k < o.2 ==> #[trigger] old_lines[o.1 + k] == new_lines[o.3 + k]
}

/// Old lines covered by the ops, in total.
pub open spec fn old_cover(ops: Seq<LineOp>) -> nat
    decreases ops.len(),
{
    if ops.len() == 0 { 0 } else { old_cover(ops.drop_last()) + ops.last().2 as nat }
}

/// New lines covered by the ops, in total.
pub open spec fn new_cover(ops: Seq<LineOp>) -> nat
    decreases ops.len(),
{
    if ops.len() == 0 { 0 } else { new_cover(ops.drop_last()) + ops.last().4 as nat }
}

/// The ops walk both sides from the first line to the last, each starting
/// where the previous one ended.
pub open spec fn tiles(ops: Seq<LineOp>, n_old: nat, n_new: nat) -> bool {
    &&& forall|k: int| 0 <= k < ops.len() ==> (#[trigger] ops[k]).1 == old_cover(ops.take(k)) && ops[k].3 == new_cover(ops.take(k))
    &&& old_cover(ops) == n_old
    &&& new_cover(ops) == n_new
}

/// What `similar` reports as the line diff of two files: the ops of
/// `TextDiff::from_slices(old, new).ops()`.
pub uninterp spec fn line_ops_of(old_lines: Seq<Seq<char>>, new_lines: Seq<Seq<char>>) -> Seq<LineOp>;

/// What `similar` reports as the line diff grouped into hunks with `n` lines
/// of context: `TextDiff::from_slices(old, new).grouped_ops(n)`.
pub uninterp spec fn grouped_line_ops_of(old_lines: Seq<Seq<char>>, new_lines: Seq<Seq<char>>, n: nat) -> Seq<Seq<LineOp>>;

/// `TextDiff::from_slices(old, new).ops()`, each op read through
/// `DiffOp::as_tag_tuple`. The Myers diff it runs (no deadline) is named by
/// `line_ops_of`; stated here is what its source shows of every result: the
/// ops tile both sides in order, each is shaped as its kind says, and an
/// equal op pairs equal lines.
#[verifier::external_body]
fn diff_line_ops(old_lines: &Vec<String>, new_lines: &Vec<String>) -> (r: Vec<LineOp>)
    ensures
        r@ == line_ops_of(strings_model(old_lines@), strings_model(new_lines@)),
        tiles(r@, old_lines@.len(), new_lines@.len()),
        forall|k: int| 0 <= k < r@.len() ==> op_sound(#[trigger] r@[k], strings_model(old_lines@), strings_model(new_lines@)),
{
    let o: Vec<&str> = old_lines.iter().map(|s| s.as_str()).collect();
    let n: Vec<&str> = new_lines.iter().map(|s| s.as_str()).collect();
    let diff = TextDiff::from_slices(&o, &n);
    diff.ops().iter().map(|d| {
        let (t, a, b) = d.as_tag_tuple();
        let t = match t { DiffTag::Equal => OpTag::Equal, DiffTag::Delete => OpTag::Delete, DiffTag::Insert => OpTag::Insert, DiffTag::Replace => OpTag::Replace };
        (t, a.start, a.len(), b.start, b.len())
    }).collect()
}

/// `TextDiff::from_slices(old, new).grouped_ops(n)`, each op read through
/// `DiffOp::as_tag_tuple`. The grouping is named by `grouped_line_ops_of`;
/// stated here is what its source shows of every op it keeps: it is a
/// (possibly shortened) op of the diff, so it is well shaped, lies within
/// both sides, and pairs equal lines when it is an equal op. The grouping
/// computes `2 * n`, so `n` is kept to half the range of `usize`.
#[verifier::external_body]
fn grouped_line_ops(old_lines: &Vec<String>, new_lines: &Vec<String>, n: usize) -> (r: Vec<Vec<LineOp>>)
    requires
        n <= usize::MAX / 2,
    ensures
        r@.len() == grouped_line_ops_of(strings_model(old_lines@), strings_model(new_lines@), n as nat).len(),
        forall|g: int| 0 <= g < r@.len() ==> (#[trigger] r@[g])@ == grouped_line_ops_of(strings_model(old_lines@), strings_model(new_lines@), n as nat)[g],
        forall|g: int, k: int| 0 <= g < r@.len() && 0 <= k < r@[g]@.len() ==> op_sound(#[trigger] r@[g]@[k], strings_model(old_lines@), strings_model(new_lines@)),
{
    let o: Vec<&str> = old_lines.iter().map(|s| s.as_str()).collect();
    let m: Vec<&str> = new_lines.iter().map(|s| s.as_str()).collect();
    let diff = TextDiff::from_slices(&o, &m);
    diff.grouped_ops(n).iter().map(|g| g.iter().map(|d| {
        let (t, a, b) = d.as_tag_tuple();
        let t = match t { DiffTag::Equal => OpTag::Equal, DiffTag::Delete => OpTag::Delete, DiffTag::Insert => OpTag::Insert, DiffTag::Replace => OpTag::Replace };
        (t, a.start, a.len(), b.start, b.len())
    }).collect()).collect()
}


// ------------------------------------------------------------ row building

pub open spec fn min_nat(a: nat, b: nat) -> nat {
    if a <= b { a } else { b }
}

pub open spec fn context_row(old_lines: Seq<Seq<char>>, new_lines: Seq<Seq<char>>, i: int, j: int, h: nat) -> RowModel {
    RowModel {
        kind: RowKind::Context,
        old: Some(plain_cell(i + 1, old_lines[i])),
        new: Some(plain_cell(j + 1, new_lines[j])),
        hunk: h,
    }
}

pub open spec fn removed_row(old_lines: Seq<Seq<char>>, i: int, h: nat) -> RowModel {
    RowModel { kind: RowKind::Removed, old: Some(plain_cell(i + 1, old_lines[i])), new: None, hunk: h }
}

pub open spec fn added_row(new_lines: Seq<Seq<char>>, j: int, h: nat) -> RowModel {
    RowModel { kind: RowKind::Added, old: None, new: Some(plain_cell(j + 1, new_lines[j])), hunk: h }
}

pub open spec fn changed_row(old_lines: Seq<Seq<char>>, new_lines: Seq<Seq<char>>, i: int, j: int, h: nat) -> RowModel {
    let e = word_emphasis_spec(old_lines[i], new_lines[j]);
    RowModel {
        kind: RowKind::Changed,
        old: Some(CellModel { number: (i + 1) as nat, text: old_lines[i], emphasis: e.0 }),
        new: Some(CellModel { number: (j + 1) as nat, text: new_lines[j], emphasis: e.1 }),
        hunk: h,
    }
}

pub open spec fn separator_row(h: nat) -> RowModel {
    RowModel { kind: RowKind::Separator, old: None, new: None, hunk: h }
}

/// The rows one op expands to: equal lines side by side, deletions and
/// insertions alone, and a replacement paired line by line with the
/// remainder of the longer side spilled into one-sided rows.
pub open spec fn op_rows(o: LineOp, old_lines: Seq<Seq<char>>, new_lines: Seq<Seq<char>>, h: nat) -> Seq<RowModel> {
    let oi = o.1 as int;
    let ol = o.2 as nat;
    let ni = o.3 as int;
    let nl = o.4 as nat;
    match o.0 {
        OpTag::Equal => Seq::new(ol, |k: int| context_row(old_lines, new_lines, oi + k, ni + k, h)),
        OpTag::Delete => Seq::new(ol, |k: int| removed_row(old_lines, oi + k, h)),
        OpTag::Insert => Seq::new(nl, |k: int| added_row(new_lines, ni + k, h)),
        OpTag::Replace => {
            let p = min_nat(ol, nl);
            Seq::new(p, |k: int| changed_row(old_lines, new_lines, oi + k, ni + k, h))
                + Seq::new((ol - p) as nat, |k: int| removed_row(old_lines, oi + p + k, h))
                + Seq::new((nl - p) as nat, |k: int| added_row(new_lines, ni + p + k, h))
        },
    }
}

pub open spec fn op_added(o: LineOp) -> nat {
    match o.0 {
        OpTag::Insert | OpTag::Replace => o.4 as nat,
        _ => 0,
    }
}

pub open spec fn op_removed(o: LineOp) -> nat {
    match o.0 {
        OpTag::Delete | OpTag::Replace => o.2 as nat,
        _ => 0,
    }
}

/// The rows of one group of ops, all tagged with hunk number `h`.
pub open spec fn group_rows(g: Seq<LineOp>, old_lines: Seq<Seq<char>>, new_lines: Seq<Seq<char>>, h: nat) -> Seq<RowModel>
    decreases g.len(),
{
    if g.len() == 0 {
        Seq::empty()
    } else {
        group_rows(g.drop_last(), old_lines, new_lines, h) + op_rows(g.last(), old_lines, new_lines, h)
    }
}

pub open spec fn group_added(g: Seq<LineOp>) -> nat
    decreases g.len(),
{
    if g.len() == 0 { 0 } else { group_added(g.drop_last()) + op_added(g.last()) }
}

pub open spec fn group_removed(g: Seq<LineOp>) -> nat
    decreases g.len(),
{
    if g.len() == 0 { 0 } else { group_removed(g.drop_last()) + op_removed(g.last()) }
}

/// Every group in turn, each after a separator row but the first; the rows
/// of group `k` carry hunk number `k + 1`, so that 0 means "before any hunk".
pub open spec fn groups_rows(gs: Seq<Seq<LineOp>>, old_lines: Seq<Seq<char>>, new_lines: Seq<Seq<char>>) -> Seq<RowModel>
    decreases gs.len(),
{
    if gs.len() == 0 {
        Seq::empty()
    } else {
        let k = (gs.len() - 1) as nat;
        groups_rows(gs.drop_last(), old_lines, new_lines)
            + (if k > 0 { seq![separator_row(k)] } else { Seq::empty() })
            + group_rows(gs.last(), old_lines, new_lines, k + 1)
    }
}

/// The row at which each group starts.
pub open spec fn groups_hunks(gs: Seq<Seq<LineOp>>, old_lines: Seq<Seq<char>>, new_lines: Seq<Seq<char>>) -> Seq<usize>
    decreases gs.len(),
{
    if gs.len() == 0 {
        Seq::empty()
    } else {
        let k = gs.len() - 1;
        groups_hunks(gs.drop_last(), old_lines, new_lines).push(
            (groups_rows(gs.drop_last(), old_lines, new_lines).len() + if k > 0 { 1int } else { 0int }) as usize,
        )
    }
}

pub open spec fn groups_added(gs: Seq<Seq<LineOp>>) -> nat
    decreases gs.len(),
{
    if gs.len() == 0 { 0 } else { groups_added(gs.drop_last()) + group_added(gs.last()) }
}

pub open spec fn groups_removed(gs: Seq<Seq<LineOp>>) -> nat
    decreases gs.len(),
{
    if gs.len() == 0 { 0 } else { groups_removed(gs.drop_last()) + group_removed(gs.last()) }
}

/// The document of a textual change built from groups of ops.
pub open spec fn text_doc(gs: Seq<Seq<LineOp>>, old_lines: Seq<Seq<char>>, new_lines: Seq<Seq<char>>) -> DocModel {
    DocModel {
        rows: groups_rows(gs, old_lines, new_lines),
        hunks: groups_hunks(gs, old_lines, new_lines),
        added: groups_added(gs),
        removed: groups_removed(gs),
        body: Body::Text,
    }
}

/// The document of two identical files: every line as context, no hunks.
pub open spec fn identical_doc(lines: Seq<Seq<char>>) -> DocModel {
    DocModel {
        rows: Seq::new(lines.len(), |i: int| RowModel {
            kind: RowKind::Context,
            old: Some(plain_cell(i + 1, lines[i])),
            new: Some(plain_cell(i + 1, lines[i])),
            hunk: 0,
        }),
        hunks: Seq::empty(),
        added: 0,
        removed: 0,
        body: Body::Identical,
    }
}

/// The groups of ops a document is built from: hunks with `n` lines of
/// context, or every op in a single group for the whole file.
pub open spec fn op_groups(old_lines: Seq<Seq<char>>, new_lines: Seq<Seq<char>>, context: Option<usize>) -> Seq<Seq<LineOp>> {
    match context {
        Some(n) => grouped_line_ops_of(old_lines, new_lines, n as nat),
        None => seq![line_ops_of(old_lines, new_lines)],
    }
}

/// What `build` returns for two texts.
pub open spec fn build_spec(old_text: Seq<char>, new_text: Seq<char>, context: Option<usize>) -> DocModel {
    let old_lines = lines_spec(old_text);
    let new_lines = lines_spec(new_text);
    if old_lines == new_lines {
        identical_doc(old_lines)
    } else {
        text_doc(op_groups(old_lines, new_lines, context), old_lines, new_lines)
    }
}

struct Builder {
    rows: Vec<Row>,
    hunks: Vec<usize>,
    added: usize,
    removed: usize,
}

impl Builder {
    spec fn inv(&self) -> bool {
        self.added <= self.rows@.len() && self.removed <= self.rows@.len()
    }

    /// Hunks are numbered from 1 so that row.hunk == 0 means "before any hunk".
    fn current_hunk(&self) -> (r: usize)
        ensures
            r == self.hunks@.len(),
    {
        self.hunks.len()
    }

    fn start_hunk(&mut self)
        ensures
            final(self).rows@ == old(self).rows@,
            final(self).hunks@ == old(self).hunks@.push(old(self).rows@.len() as usize),
            final(self).added == old(self).added,
            final(self).removed == old(self).removed,
    {
        let n = self.rows.len();
        self.hunks.push(n);
    }

    fn separator(&mut self)
        requires
            old(self).inv(),
        ensures
            final(self).inv(),
            rows_model(final(self).rows@) == rows_model(old(self).rows@).push(separator_row(old(self).hunks@.len())),
            final(self).hunks@ == old(self).hunks@,
            final(self).added == old(self).added,
            final(self).removed == old(self).removed,
    {
        let h = self.current_hunk();
        self.rows.push(Row { kind: RowKind::Separator, old: None, new: None, hunk: h });
        proof {
            assert(rows_model(self.rows@) =~= rows_model(old(self).rows@).push(separator_row(old(self).hunks@.len())));
        }
    }

    fn push(&mut self, kind: RowKind, left: Option<Cell>, right: Option<Cell>)
        requires
            old(self).inv(),
        ensures
            final(self).inv(),
            rows_model(final(self).rows@) == rows_model(old(self).rows@).push(
                RowModel { kind, old: opt_cell(left), new: opt_cell(right), hunk: old(self).hunks@.len() },
            ),
            final(self).hunks@ == old(self).hunks@,
            final(self).added == old(self).added + if kind == RowKind::Added || kind == RowKind::Changed { 1int } else { 0int },
            final(self).removed == old(self).removed + if kind == RowKind::Removed || kind == RowKind::Changed { 1int } else { 0int },
    {
        let hunk = self.current_hunk();
        let ghost rm = RowModel { kind, old: opt_cell(left), new: opt_cell(right), hunk: old(self).hunks@.len() };
        self.rows.push(Row { kind, old: left, new: right, hunk });
        let n = self.rows.len();
        assert(self.added < n && self.removed < n);
        match kind {
            RowKind::Added => self.added = self.added + 1,
            RowKind::Removed => self.removed = self.removed + 1,
            RowKind::Changed => {
                self.added = self.added + 1;
                self.removed = self.removed + 1;
            },
            _ => {},
        }
        proof {
            assert(rows_model(self.rows@) =~= rows_model(old(self).rows@).push(rm));
        }
    }

    fn op(&mut self, o: LineOp, old_lines: &Vec<String>, new_lines: &Vec<String>)
        requires
            old(self).inv(),
            op_sound(o, strings_model(old_lines@), strings_model(new_lines@)),
        ensures
            final(self).inv(),
            rows_model(final(self).rows@) == rows_model(old(self).rows@) + op_rows(
                o,
                strings_model(old_lines@),
                strings_model(new_lines@),
                old(self).hunks@.len(),
            ),
            final(self).hunks@ == old(self).hunks@,
            final(self).added == old(self).added + op_added(o),
            final(self).removed == old(self).removed + op_removed(o),
    {
        let ghost ls = strings_model(old_lines@);
        let ghost rs = strings_model(new_lines@);
        let ghost h = old(self).hunks@.len();
        let ghost base = rows_model(old(self).rows@);
        let (tag, oi, ol, ni, nl) = o;
        let n_old = old_lines.len();
        let n_new = new_lines.len();
        match tag {
            OpTag::Equal => {
                let mut k: usize = 0;
                while k < ol
                    invariant
                        self.inv(),
                        op_sound(o, ls, rs),
                        o == (tag, oi, ol, ni, nl),
                        tag == OpTag::Equal,
                        ls == strings_model(old_lines@),
                        rs == strings_model(new_lines@),
                        k <= ol,
                        self.hunks@.len() == h,
                        self.hunks@ == old(self).hunks@,
                        n_old == old_lines@.len(),
                        n_new == new_lines@.len(),
                        rows_model(self.rows@) == base + Seq::new(k as nat, |m: int| context_row(ls, rs, oi + m, ni + m, h)),
                        self.added == old(self).added,
                        self.removed == old(self).removed,
                    decreases ol - k,
                {
                    let c1 = Cell::plain(oi + k + 1, &old_lines[oi + k]);
                    let c2 = Cell::plain(ni + k + 1, &new_lines[ni + k]);
                    self.push(RowKind::Context, Some(c1), Some(c2));
                    proof {
                        assert(base + Seq::new((k + 1) as nat, |m: int| context_row(ls, rs, oi + m, ni + m, h))
                            =~= (base + Seq::new(k as nat, |m: int| context_row(ls, rs, oi + m, ni + m, h))).push(context_row(ls, rs, oi + k, ni + k, h)));
                    }
                    k = k + 1;
                }
            },
            OpTag::Delete => {
                let mut k: usize = 0;
                while k < ol
                    invariant
                        self.inv(),
                        op_sound(o, ls, rs),
                        o == (tag, oi, ol, ni, nl),
                        tag == OpTag::Delete,
                        ls == strings_model(old_lines@),
                        k <= ol,
                        self.hunks@.len() == h,
                        self.hunks@ == old(self).hunks@,
                        n_old == old_lines@.len(),
                        n_new == new_lines@.len(),
                        rows_model(self.rows@) == base + Seq::new(k as nat, |m: int| removed_row(ls, oi + m, h)),
                        self.added == old(self).added,
                        self.removed == old(self).removed + k,
                    decreases ol - k,
                {
                    let c1 = Cell::plain(oi + k + 1, &old_lines[oi + k]);
                    self.push(RowKind::Removed, Some(c1), None);
                    proof {
                        assert(base + Seq::new((k + 1) as nat, |m: int| removed_row(ls, oi + m, h))
                            =~= (base + Seq::new(k as nat, |m: int| removed_row(ls, oi + m, h))).push(removed_row(ls, oi + k, h)));
                    }
                    k = k + 1;
                }
            },
            OpTag::Insert => {
                let mut k: usize = 0;
                while k < nl
                    invariant
                        self.inv(),
                        op_sound(o, ls, rs),
                        o == (tag, oi, ol, ni, nl),
                        tag == OpTag::Insert,
                        rs == strings_model(new_lines@),
                        k <= nl,
                        self.hunks@.len() == h,
                        self.hunks@ == old(self).hunks@,
                        n_old == old_lines@.len(),
                        n_new == new_lines@.len(),
                        rows_model(self.rows@) == base + Seq::new(k as nat, |m: int| added_row(rs, ni + m, h)),
                        self.added == old(self).added + k,
                        self.removed == old(self).removed,
                    decreases nl - k,
                {
                    let c2 = Cell::plain(ni + k + 1, &new_lines[ni + k]);
                    self.push(RowKind::Added, None, Some(c2));
                    proof {
                        assert(base + Seq::new((k + 1) as nat, |m: int| added_row(rs, ni + m, h))
                            =~= (base + Seq::new(k as nat, |m: int| added_row(rs, ni + m, h))).push(added_row(rs, ni + k, h)));
                    }
                    k = k + 1;
                }
            },
            OpTag::Replace => {
                let paired = if ol <= nl { ol } else { nl };
                let ghost p = paired as nat;
                let ghost f1 = |m: int| changed_row(ls, rs, oi + m, ni + m, h);
                let ghost f2 = |m: int| removed_row(ls, oi + p + m, h);
                let ghost f3 = |m: int| added_row(rs, ni + p + m, h);
                let mut k: usize = 0;
                while k < paired
                    invariant
                        self.inv(),
                        op_sound(o, ls, rs),
                        o == (tag, oi, ol, ni, nl),
                        paired <= ol && paired <= nl,
                        ls == strings_model(old_lines@),
                        rs == strings_model(new_lines@),
                        f1 == (|m: int| changed_row(ls, rs, oi + m, ni + m, h)),
                        k <= paired,
                        self.hunks@.len() == h,
                        self.hunks@ == old(self).hunks@,
                        n_old == old_lines@.len(),
                        n_new == new_lines@.len(),
                        rows_model(self.rows@) == base + Seq::new(k as nat, f1),
                        self.added == old(self).added + k,
                        self.removed == old(self).removed + k,
                    decreases paired - k,
                {
                    let left = &old_lines[oi + k];
                    let right = &new_lines[ni + k];
                    let (oe, ne) = word_emphasis(left.as_str(), right.as_str());
                    let c1 = Cell { number: oi + k + 1, text: left.clone(), emphasis: oe };
                    let c2 = Cell { number: ni + k + 1, text: right.clone(), emphasis: ne };
                    self.push(RowKind::Changed, Some(c1), Some(c2));
                    proof {
                        assert(base + Seq::new((k + 1) as nat, f1) =~= (base + Seq::new(k as nat, f1)).push(f1(k as int)));
                    }
                    k = k + 1;
                }
                let ghost base2 = rows_model(self.rows@);
                let mut k: usize = paired;
                while k < ol
                    invariant
                        self.inv(),
                        op_sound(o, ls, rs),
                        o == (tag, oi, ol, ni, nl),
                        paired <= ol && paired <= nl,
                        p == paired,
                        ls == strings_model(old_lines@),
                        f2 == (|m: int| removed_row(ls, oi + p + m, h)),
                        paired <= k <= ol,
                        self.hunks@.len() == h,
                        self.hunks@ == old(self).hunks@,
                        n_old == old_lines@.len(),
                        n_new == new_lines@.len(),
                        rows_model(self.rows@) == base2 + Seq::new((k - paired) as nat, f2),
                        self.added == old(self).added + paired,
                        self.removed == old(self).removed + k,
                    decreases ol - k,
                {
                    let c1 = Cell::plain(oi + k + 1, &old_lines[oi + k]);
                    self.push(RowKind::Removed, Some(c1), None);
                    proof {
                        assert(f2((k - paired) as int) == removed_row(ls, oi + k, h));
                        assert(base2 + Seq::new((k + 1 - paired) as nat, f2) =~= (base2 + Seq::new((k - paired) as nat, f2)).push(f2((k - paired) as int)));
                    }
                    k = k + 1;
                }
                let ghost base3 = rows_model(self.rows@);
                let mut k: usize = paired;
                while k < nl
                    invariant
                        self.inv(),
                        op_sound(o, ls, rs),
                        o == (tag, oi, ol, ni, nl),
                        paired <= ol && paired <= nl,
                        p == paired,
                        rs == strings_model(new_lines@),
                        f3 == (|m: int| added_row(rs, ni + p + m, h)),
                        paired <= k <= nl,
                        self.hunks@.len() == h,
                        self.hunks@ == old(self).hunks@,
                        n_old == old_lines@.len(),
                        n_new == new_lines@.len(),
                        rows_model(self.rows@) == base3 + Seq::new((k - paired) as nat, f3),
                        self.added == old(self).added + k,
                        self.removed == old(self).removed + ol,
                    decreases nl - k,
                {
                    let c2 = Cell::plain(ni + k + 1, &new_lines[ni + k]);
                    self.push(RowKind::Added, None, Some(c2));
                    proof {
                        assert(f3((k - paired) as int) == added_row(rs, ni + k, h));
                        assert(base3 + Seq::new((k + 1 - paired) as nat, f3) =~= (base3 + Seq::new((k - paired) as nat, f3)).push(f3((k - paired) as int)));
                    }
                    k = k + 1;
                }
                proof {
                    assert(rows_model(self.rows@) =~= base + (Seq::new(p, f1) + Seq::new((ol - p) as nat, f2) + Seq::new((nl - p) as nat, f3)));
                }
            },
        }
    }
}


fn lines_equal(a: &Vec<String>, b: &Vec<String>) -> (r: bool)
    ensures
        r == (strings_model(a@) == strings_model(b@)),
{
    if a.len() != b.len() {
        proof {
            assert(strings_model(a@).len() != strings_model(b@).len());
        }
        return false;
    }
    let mut i: usize = 0;
    while i < a.len()
        invariant
            a@.len() == b@.len(),
            i <= a.len(),
            forall|k: int| 0 <= k < i ==> a@[k]@ == b@[k]@,
        decreases a.len() - i,
    {
        if a[i] != b[i] {
            proof {
                assert(strings_model(a@)[i as int] != strings_model(b@)[i as int]);
            }
            return false;
        }
        i = i + 1;
    }
    proof {
        assert(strings_model(a@) =~= strings_model(b@));
    }
    true
}

pub open spec fn groups_model(v: Seq<Vec<LineOp>>) -> Seq<Seq<LineOp>> {
    Seq::new(v.len(), |g: int| v[g]@)
}

proof fn lemma_groups_take(gs: Seq<Seq<LineOp>>, i: int, ls: Seq<Seq<char>>, rs: Seq<Seq<char>>)
    requires
        0 <= i < gs.len(),
    ensures
        groups_rows(gs.take(i + 1), ls, rs) == groups_rows(gs.take(i), ls, rs)
            + (if i > 0 { seq![separator_row(i as nat)] } else { Seq::empty() })
            + group_rows(gs[i], ls, rs, (i + 1) as nat),
        groups_hunks(gs.take(i + 1), ls, rs) == groups_hunks(gs.take(i), ls, rs).push(
            (groups_rows(gs.take(i), ls, rs).len() + if i > 0 { 1int } else { 0int }) as usize,
        ),
        groups_added(gs.take(i + 1)) == groups_added(gs.take(i)) + group_added(gs[i]),
        groups_removed(gs.take(i + 1)) == groups_removed(gs.take(i)) + group_removed(gs[i]),
{
    assert(gs.take(i + 1).drop_last() =~= gs.take(i));
    assert(gs.take(i + 1).last() == gs[i]);
}

proof fn lemma_group_take(g: Seq<LineOp>, j: int, ls: Seq<Seq<char>>, rs: Seq<Seq<char>>, h: nat)
    requires
        0 <= j < g.len(),
    ensures
        group_rows(g.take(j + 1), ls, rs, h) == group_rows(g.take(j), ls, rs, h) + op_rows(g[j], ls, rs, h),
        group_added(g.take(j + 1)) == group_added(g.take(j)) + op_added(g[j]),
        group_removed(g.take(j + 1)) == group_removed(g.take(j)) + op_removed(g[j]),
{
    assert(g.take(j + 1).drop_last() =~= g.take(j));
    assert(g.take(j + 1).last() == g[j]);
}

proof fn lemma_groups_hunks_len(gs: Seq<Seq<LineOp>>, ls: Seq<Seq<char>>, rs: Seq<Seq<char>>)
    ensures
        groups_hunks(gs, ls, rs).len() == gs.len(),
    decreases gs.len(),
{
    if gs.len() > 0 {
        lemma_groups_hunks_len(gs.drop_last(), ls, rs);
    }
}

/// Build the row list. `context` is the number of unchanged lines kept around
/// each hunk; `None` shows the entire file.
pub fn build(old_text: &str, new_text: &str, context: Option<usize>) -> (doc: Document)
    requires
        context matches Some(n) ==> n <= usize::MAX / 2,
    ensures
        doc@ == build_spec(old_text@, new_text@, context),
        build_laws(doc@, old_text@, new_text@, context),
{
    let old_lines = split_lines(old_text);
    let new_lines = split_lines(new_text);
    let ghost ls = strings_model(old_lines@);
    let ghost rs = strings_model(new_lines@);

    if lines_equal(&old_lines, &new_lines) {
        // Still render the file so the panes aren't blank.
        let mut rows: Vec<Row> = Vec::new();
        let mut i: usize = 0;
        let ghost f = |k: int| RowModel {
            kind: RowKind::Context,
            old: Some(plain_cell(k + 1, ls[k])),
            new: Some(plain_cell(k + 1, ls[k])),
            hunk: 0,
        };
        while i < old_lines.len()
            invariant
                i <= old_lines@.len(),
                ls == strings_model(old_lines@),
                f == (|k: int| RowModel {
                    kind: RowKind::Context,
                    old: Some(plain_cell(k + 1, ls[k])),
                    new: Some(plain_cell(k + 1, ls[k])),
                    hunk: 0,
                }),
                rows_model(rows@) == Seq::new(i as nat, f),
            decreases old_lines.len() - i,
        {
            let c1 = Cell::plain(i + 1, &old_lines[i]);
            let c2 = Cell::plain(i + 1, &old_lines[i]);
            let ghost prev = rows@;
            let row = Row { kind: RowKind::Context, old: Some(c1), new: Some(c2), hunk: 0 };
            let ghost rm = row@;
            rows.push(row);
            proof {
                assert(ls[i as int] == old_lines@[i as int]@);
                assert(rm == f(i as int));
                assert(rows_model(rows@) =~= rows_model(prev).push(rm));
                assert(Seq::new((i + 1) as nat, f) =~= Seq::new(i as nat, f).push(f(i as int)));
                assert(rows_model(rows@) =~= Seq::new((i + 1) as nat, f));
            }
            i = i + 1;
        }
        let doc = Document { rows, hunks: Vec::new(), added: 0, removed: 0, body: Body::Identical };
        proof {
            assert(doc@.rows =~= identical_doc(ls).rows);
            assert(doc@.hunks =~= identical_doc(ls).hunks);
            lemma_counts_new(ls.len(), f, RowKind::Context);
            lemma_old_side_new(ls.len(), f, |k: int| ((k + 1) as nat, ls[k]), true);
            lemma_new_side_new(ls.len(), f, |k: int| ((k + 1) as nat, ls[k]), true);
            assert(doc@.rows == Seq::new(ls.len(), f));
        }
        return doc;
    }

    let ghost mut all_ops: Seq<LineOp> = Seq::empty();
    let groups: Vec<Vec<LineOp>> = match context {
        Some(n) => grouped_line_ops(&old_lines, &new_lines, n),
        None => {
            let all = diff_line_ops(&old_lines, &new_lines);
            proof {
                all_ops = all@;
            }
            let mut g: Vec<Vec<LineOp>> = Vec::new();
            g.push(all);
            g
        },
    };
    let ghost gs = groups_model(groups@);
    proof {
        assert(gs =~= op_groups(ls, rs, context));
    }

    let mut b = Builder { rows: Vec::new(), hunks: Vec::new(), added: 0, removed: 0 };
    let mut i: usize = 0;
    while i < groups.len()
        invariant
            i <= groups@.len(),
            gs == groups_model(groups@),
            ls == strings_model(old_lines@),
            rs == strings_model(new_lines@),
            forall|g: int, k: int| 0 <= g < groups@.len() && 0 <= k < groups@[g]@.len() ==> op_sound(#[trigger] groups@[g]@[k], ls, rs),
            b.inv(),
            b.hunks@.len() == i,
            rows_model(b.rows@) == groups_rows(gs.take(i as int), ls, rs),
            b.hunks@ == groups_hunks(gs.take(i as int), ls, rs),
            b.added == groups_added(gs.take(i as int)),
            b.removed == groups_removed(gs.take(i as int)),
        decreases groups.len() - i,
    {
        proof {
            lemma_groups_take(gs, i as int, ls, rs);
        }
        let ghost before = rows_model(b.rows@);
        if i > 0 {
            b.separator();
        }
        let ghost start = rows_model(b.rows@);
        let ghost hunks_before = b.hunks@;
        b.start_hunk();
        let g = &groups[i];
        let ghost gm = g@;
        assert(gm == gs[i as int]);
        let mut j: usize = 0;
        while j < g.len()
            invariant
                j <= g@.len(),
                gm == g@,
                g@ == groups@[i as int]@,
                i < groups@.len(),
                ls == strings_model(old_lines@),
                rs == strings_model(new_lines@),
                forall|g: int, k: int| 0 <= g < groups@.len() && 0 <= k < groups@[g]@.len() ==> op_sound(#[trigger] groups@[g]@[k], ls, rs),
                b.inv(),
                b.hunks@.len() == i + 1,
                b.hunks@ == hunks_before.push(start.len() as usize),
                rows_model(b.rows@) == start + group_rows(gm.take(j as int), ls, rs, (i + 1) as nat),
                b.added == groups_added(gs.take(i as int)) + group_added(gm.take(j as int)),
                b.removed == groups_removed(gs.take(i as int)) + group_removed(gm.take(j as int)),
            decreases g.len() - j,
        {
            proof {
                lemma_group_take(gm, j as int, ls, rs, (i + 1) as nat);
                assert(op_sound(groups@[i as int]@[j as int], ls, rs));
            }
            b.op(g[j], &old_lines, &new_lines);
            proof {
                assert(rows_model(b.rows@) =~= start + group_rows(gm.take(j + 1), ls, rs, (i + 1) as nat));
            }
            j = j + 1;
        }
        proof {
            assert(gm.take(j as int) =~= gm);
            assert(rows_model(b.rows@) =~= groups_rows(gs.take(i + 1), ls, rs));
        }
        i = i + 1;
    }
    proof {
        assert(gs.take(i as int) =~= gs);
    }
    let doc = Document { rows: b.rows, hunks: b.hunks, added: b.added, removed: b.removed, body: Body::Text };
    proof {
        let n_rows = doc.rows.len();
        assert(doc@.rows.len() == n_rows);
        if context is None {
            assert(gs == seq![all_ops]);
        }
        lemma_build_laws(old_text@, new_text@, context, all_ops);
    }
    doc
}

// ------------------------------------------------------------- unifying

/// The rows one row becomes in the unified layout: a changed row splits into
/// its removed half and its added half; every other row stays as it is.
pub open spec fn unify_row(r: RowModel) -> Seq<RowModel> {
    if r.kind == RowKind::Changed {
        seq![
            RowModel { kind: RowKind::Removed, old: r.old, new: None, hunk: r.hunk },
            RowModel { kind: RowKind::Added, old: None, new: r.new, hunk: r.hunk },
        ]
    } else {
        seq![r]
    }
}

pub open spec fn unify_rows(rows: Seq<RowModel>) -> Seq<RowModel>
    decreases rows.len(),
{
    if rows.len() == 0 {
        Seq::empty()
    } else {
        unify_rows(rows.drop_last()) + unify_row(rows.last())
    }
}

/// What `unify` returns: the rows split, each hunk marker moved to where its
/// row went, and the counts and body kept.
pub open spec fn unify_spec(d: DocModel) -> DocModel {
    DocModel {
        rows: unify_rows(d.rows),
        hunks: Seq::new(d.hunks.len(), |i: int| unify_rows(d.rows.take(d.hunks[i] as int)).len() as usize),
        added: d.added,
        removed: d.removed,
        body: d.body,
    }
}

proof fn lemma_unify_take(rows: Seq<RowModel>, k: int)
    requires
        0 <= k < rows.len(),
    ensures
        unify_rows(rows.take(k + 1)) == unify_rows(rows.take(k)) + unify_row(rows[k]),
{
    assert(rows.take(k + 1).drop_last() =~= rows.take(k));
    assert(rows.take(k + 1).last() == rows[k]);
}

/// Split every `Changed` row into a removed row and an added row.
///
/// Side-by-side shows both versions of a modified line at once; unified has
/// only one column, so the pair has to become two rows. Doing it here keeps
/// one row equal to one screen line, which is what the cursor and the scroll
/// offset assume.
pub fn unify(doc: &Document) -> (u: Document)
    requires
        forall|i: int| 0 <= i < doc.hunks@.len() ==> #[trigger] doc.hunks@[i] < doc.rows@.len(),
    ensures
        u@ == unify_spec(doc@),
        unify_laws(u@, doc@),
{
    let ghost d = doc@;
    let mut rows: Vec<Row> = Vec::new();
    // Old row index -> new row index, to move the hunk markers along with it.
    let mut remap: Vec<usize> = Vec::new();
    let mut k: usize = 0;
    while k < doc.rows.len()
        invariant
            k <= doc.rows@.len(),
            d == doc@,
            rows_model(rows@) == unify_rows(d.rows.take(k as int)),
            remap@.len() == k,
            forall|m: int| 0 <= m < k ==> #[trigger] remap@[m] == unify_rows(d.rows.take(m)).len(),
        decreases doc.rows.len() - k,
    {
        proof {
            lemma_unify_take(d.rows, k as int);
        }
        let n = rows.len();
        remap.push(n);
        let row = &doc.rows[k];
        assert(d.rows[k as int] == row@);
        if row.kind == RowKind::Changed {
            rows.push(Row { kind: RowKind::Removed, old: copy_cell(&row.old), new: None, hunk: row.hunk });
            rows.push(Row { kind: RowKind::Added, old: None, new: copy_cell(&row.new), hunk: row.hunk });
        } else {
            rows.push(row.clone());
        }
        proof {
            assert(rows_model(rows@) =~= unify_rows(d.rows.take(k + 1)));
        }
        k = k + 1;
    }
    proof {
        assert(d.rows.take(k as int) =~= d.rows);
    }
    let mut hunks: Vec<usize> = Vec::new();
    let mut i: usize = 0;
    while i < doc.hunks.len()
        invariant
            i <= doc.hunks@.len(),
            d == doc@,
            remap@.len() == doc.rows@.len(),
            forall|m: int| 0 <= m < remap@.len() ==> #[trigger] remap@[m] == unify_rows(d.rows.take(m)).len(),
            forall|m: int| 0 <= m < doc.hunks@.len() ==> #[trigger] doc.hunks@[m] < doc.rows@.len(),
            hunks@ == Seq::new(i as nat, |m: int| unify_rows(d.rows.take(d.hunks[m] as int)).len() as usize),
        decreases doc.hunks.len() - i,
    {
        let at = doc.hunks[i];
        assert(doc.hunks@[i as int] < doc.rows@.len());
        hunks.push(remap[at]);
        proof {
            assert(hunks@ =~= Seq::new((i + 1) as nat, |m: int| unify_rows(d.rows.take(d.hunks[m] as int)).len() as usize));
        }
        i = i + 1;
    }
    let u = Document { rows, hunks, added: doc.added, removed: doc.removed, body: doc.body };
    proof {
        assert(u@.hunks =~= unify_spec(d).hunks);
        let n_rows = u.rows.len();
        assert(u@.rows.len() == n_rows);
        unify_keeps_the_diff(d);
    }
    u
}


// ----------------------------------------------------------------- laws

/// Each row carries exactly the sides its kind says: context and changed rows
/// both, removed rows only the old, added rows only the new, separators none.
pub open spec fn row_well_shaped(r: RowModel) -> bool {
    match r.kind {
        RowKind::Context | RowKind::Changed => r.old is Some && r.new is Some,
        RowKind::Removed => r.old is Some && r.new is None,
        RowKind::Added => r.old is None && r.new is Some,
        RowKind::Separator => r.old is None && r.new is None,
    }
}

pub open spec fn rows_well_shaped(rows: Seq<RowModel>) -> bool {
    forall|i: int| 0 <= i < rows.len() ==> row_well_shaped(#[trigger] rows[i])
}

/// Rows that add a line on the new side.
pub open spec fn count_added(rows: Seq<RowModel>) -> nat
    decreases rows.len(),
{
    if rows.len() == 0 {
        0
    } else {
        count_added(rows.drop_last()) + if rows.last().kind == RowKind::Added || rows.last().kind == RowKind::Changed { 1nat } else { 0nat }
    }
}

/// Rows that remove a line from the old side.
pub open spec fn count_removed(rows: Seq<RowModel>) -> nat
    decreases rows.len(),
{
    if rows.len() == 0 {
        0
    } else {
        count_removed(rows.drop_last()) + if rows.last().kind == RowKind::Removed || rows.last().kind == RowKind::Changed { 1nat } else { 0nat }
    }
}

/// The old side read top to bottom: the number and text of each old cell.
pub open spec fn old_side(rows: Seq<RowModel>) -> Seq<(nat, Seq<char>)>
    decreases rows.len(),
{
    if rows.len() == 0 {
        Seq::empty()
    } else {
        old_side(rows.drop_last()) + match rows.last().old {
            Some(c) => seq![(c.number, c.text)],
            None => Seq::empty(),
        }
    }
}

/// The new side read top to bottom: the number and text of each new cell.
pub open spec fn new_side(rows: Seq<RowModel>) -> Seq<(nat, Seq<char>)>
    decreases rows.len(),
{
    if rows.len() == 0 {
        Seq::empty()
    } else {
        new_side(rows.drop_last()) + match rows.last().new {
            Some(c) => seq![(c.number, c.text)],
            None => Seq::empty(),
        }
    }
}

/// The lines of a file, each with its 1-based number.
pub open spec fn numbered(lines: Seq<Seq<char>>) -> Seq<(nat, Seq<char>)> {
    Seq::new(lines.len(), |i: int| ((i + 1) as nat, lines[i]))
}

proof fn lemma_sides_concat(a: Seq<RowModel>, b: Seq<RowModel>)
    ensures
        old_side(a + b) == old_side(a) + old_side(b),
        new_side(a + b) == new_side(a) + new_side(b),
        count_added(a + b) == count_added(a) + count_added(b),
        count_removed(a + b) == count_removed(a) + count_removed(b),
        rows_well_shaped(a) && rows_well_shaped(b) ==> rows_well_shaped(a + b),
    decreases b.len(),
{
    if b.len() == 0 {
        assert(a + b =~= a);
        assert(old_side(a) + old_side(b) =~= old_side(a));
        assert(new_side(a) + new_side(b) =~= new_side(a));
    } else {
        lemma_sides_concat(a, b.drop_last());
        assert((a + b).drop_last() =~= a + b.drop_last());
        assert((a + b).last() == b.last());
        assert(old_side(a + b) =~= old_side(a) + old_side(b));
        assert(new_side(a + b) =~= new_side(a) + new_side(b));
        if rows_well_shaped(a) && rows_well_shaped(b) {
            assert forall|i: int| 0 <= i < (a + b).len() implies row_well_shaped(#[trigger] (a + b)[i]) by {
                if i < a.len() {
                    assert((a + b)[i] == a[i]);
                } else {
                    assert((a + b)[i] == b[i - a.len()]);
                }
            }
        }
    }
}

/// The old side of rows made one per index.
proof fn lemma_old_side_new(n: nat, f: spec_fn(int) -> RowModel, g: spec_fn(int) -> (nat, Seq<char>), has: bool)
    requires
        forall|k: int| 0 <= k < n ==> ((#[trigger] f(k)).old is Some <==> has),
        has ==> forall|k: int| 0 <= k < n ==> (#[trigger] f(k)).old->Some_0.number == g(k).0 && f(k).old->Some_0.text == g(k).1,
    ensures
        old_side(Seq::new(n, f)) == if has { Seq::new(n, g) } else { Seq::<(nat, Seq<char>)>::empty() },
    decreases n,
{
    if n > 0 {
        lemma_old_side_new((n - 1) as nat, f, g, has);
        assert(Seq::new(n, f).drop_last() =~= Seq::new((n - 1) as nat, f));
        assert(Seq::new(n, f).last() == f(n - 1));
        if has {
            assert(old_side(Seq::new(n, f)) =~= Seq::new(n, g));
        } else {
            assert(old_side(Seq::new(n, f)) =~= Seq::<(nat, Seq<char>)>::empty());
        }
    } else {
        assert(Seq::new(n, f) =~= Seq::<RowModel>::empty());
        assert(Seq::new(n, g) =~= Seq::<(nat, Seq<char>)>::empty());
    }
}

/// The new side of rows made one per index.
proof fn lemma_new_side_new(n: nat, f: spec_fn(int) -> RowModel, g: spec_fn(int) -> (nat, Seq<char>), has: bool)
    requires
        forall|k: int| 0 <= k < n ==> ((#[trigger] f(k)).new is Some <==> has),
        has ==> forall|k: int| 0 <= k < n ==> (#[trigger] f(k)).new->Some_0.number == g(k).0 && f(k).new->Some_0.text == g(k).1,
    ensures
        new_side(Seq::new(n, f)) == if has { Seq::new(n, g) } else { Seq::<(nat, Seq<char>)>::empty() },
    decreases n,
{
    if n > 0 {
        lemma_new_side_new((n - 1) as nat, f, g, has);
        assert(Seq::new(n, f).drop_last() =~= Seq::new((n - 1) as nat, f));
        assert(Seq::new(n, f).last() == f(n - 1));
        if has {
            assert(new_side(Seq::new(n, f)) =~= Seq::new(n, g));
        } else {
            assert(new_side(Seq::new(n, f)) =~= Seq::<(nat, Seq<char>)>::empty());
        }
    } else {
        assert(Seq::new(n, f) =~= Seq::<RowModel>::empty());
        assert(Seq::new(n, g) =~= Seq::<(nat, Seq<char>)>::empty());
    }
}

/// The counts and the shape of rows of one kind made one per index.
proof fn lemma_counts_new(n: nat, f: spec_fn(int) -> RowModel, kind: RowKind)
    requires
        forall|k: int| 0 <= k < n ==> (#[trigger] f(k)).kind == kind && row_well_shaped(f(k)),
    ensures
        count_added(Seq::new(n, f)) == if kind == RowKind::Added || kind == RowKind::Changed { n } else { 0 },
        count_removed(Seq::new(n, f)) == if kind == RowKind::Removed || kind == RowKind::Changed { n } else { 0 },
        rows_well_shaped(Seq::new(n, f)),
    decreases n,
{
    if n > 0 {
        lemma_counts_new((n - 1) as nat, f, kind);
        assert(Seq::new(n, f).drop_last() =~= Seq::new((n - 1) as nat, f));
        assert(Seq::new(n, f).last() == f(n - 1));
    } else {
        assert(Seq::new(n, f) =~= Seq::<RowModel>::empty());
    }
}

/// What one sound op contributes to each side, to the counts and to the shape.
proof fn lemma_op_rows_sides(o: LineOp, ls: Seq<Seq<char>>, rs: Seq<Seq<char>>, h: nat)
    requires
        op_sound(o, ls, rs),
    ensures
        old_side(op_rows(o, ls, rs, h)) == Seq::new(o.2 as nat, |k: int| ((o.1 + k + 1) as nat, ls[o.1 + k])),
        new_side(op_rows(o, ls, rs, h)) == Seq::new(o.4 as nat, |k: int| ((o.3 + k + 1) as nat, rs[o.3 + k])),
        count_added(op_rows(o, ls, rs, h)) == op_added(o),
        count_removed(op_rows(o, ls, rs, h)) == op_removed(o),
        rows_well_shaped(op_rows(o, ls, rs, h)),
        forall|i: int| 0 <= i < op_rows(o, ls, rs, h).len() ==> (#[trigger] op_rows(o, ls, rs, h)[i]).hunk == h,
{
    let oi = o.1 as int;
    let ol = o.2 as nat;
    let ni = o.3 as int;
    let nl = o.4 as nat;
    let go = |k: int| ((oi + k + 1) as nat, ls[oi + k]);
    let gn = |k: int| ((ni + k + 1) as nat, rs[ni + k]);
    match o.0 {
        OpTag::Equal => {
            let f = |k: int| context_row(ls, rs, oi + k, ni + k, h);
            lemma_old_side_new(ol, f, go, true);
            lemma_new_side_new(ol, f, gn, true);
            lemma_counts_new(ol, f, RowKind::Context);
            assert(Seq::new(ol, gn) =~= Seq::new(nl, gn));
        },
        OpTag::Delete => {
            let f = |k: int| removed_row(ls, oi + k, h);
            lemma_old_side_new(ol, f, go, true);
            lemma_new_side_new(ol, f, gn, false);
            lemma_counts_new(ol, f, RowKind::Removed);
            assert(Seq::new(nl, gn) =~= Seq::<(nat, Seq<char>)>::empty());
        },
        OpTag::Insert => {
            let f = |k: int| added_row(rs, ni + k, h);
            lemma_old_side_new(nl, f, go, false);
            lemma_new_side_new(nl, f, gn, true);
            lemma_counts_new(nl, f, RowKind::Added);
            assert(Seq::new(ol, go) =~= Seq::<(nat, Seq<char>)>::empty());
        },
        OpTag::Replace => {
            let p = min_nat(ol, nl);
            let f1 = |k: int| changed_row(ls, rs, oi + k, ni + k, h);
            let f2 = |k: int| removed_row(ls, oi + p + k, h);
            let f3 = |k: int| added_row(rs, ni + p + k, h);
            let go2 = |k: int| ((oi + p + k + 1) as nat, ls[oi + p + k]);
            let gn3 = |k: int| ((ni + p + k + 1) as nat, rs[ni + p + k]);
            lemma_old_side_new(p, f1, go, true);
            lemma_new_side_new(p, f1, gn, true);
            lemma_counts_new(p, f1, RowKind::Changed);
            lemma_old_side_new((ol - p) as nat, f2, go2, true);
            lemma_new_side_new((ol - p) as nat, f2, gn3, false);
            lemma_counts_new((ol - p) as nat, f2, RowKind::Removed);
            lemma_old_side_new((nl - p) as nat, f3, go2, false);
            lemma_new_side_new((nl - p) as nat, f3, gn3, true);
            lemma_counts_new((nl - p) as nat, f3, RowKind::Added);
            let a = Seq::new(p, f1);
            let b = Seq::new((ol - p) as nat, f2);
            let c = Seq::new((nl - p) as nat, f3);
            lemma_sides_concat(a, b);
            lemma_sides_concat(a + b, c);
            assert(old_side(a + b + c) =~= Seq::new(ol, go));
            assert(new_side(a + b + c) =~= Seq::new(nl, gn));
            assert(op_rows(o, ls, rs, h) == a + b + c);
        },
    }
}

proof fn lemma_group_rows_laws(g: Seq<LineOp>, ls: Seq<Seq<char>>, rs: Seq<Seq<char>>, h: nat)
    requires
        forall|k: int| 0 <= k < g.len() ==> op_sound(#[trigger] g[k], ls, rs),
    ensures
        count_added(group_rows(g, ls, rs, h)) == group_added(g),
        count_removed(group_rows(g, ls, rs, h)) == group_removed(g),
        rows_well_shaped(group_rows(g, ls, rs, h)),
        forall|i: int| 0 <= i < group_rows(g, ls, rs, h).len() ==> (#[trigger] group_rows(g, ls, rs, h)[i]).hunk == h,
    decreases g.len(),
{
    if g.len() > 0 {
        lemma_group_rows_laws(g.drop_last(), ls, rs, h);
        lemma_op_rows_sides(g.last(), ls, rs, h);
        let a = group_rows(g.drop_last(), ls, rs, h);
        let b = op_rows(g.last(), ls, rs, h);
        lemma_sides_concat(a, b);
        assert forall|i: int| 0 <= i < (a + b).len() implies (#[trigger] (a + b)[i]).hunk == h by {
            if i < a.len() {
                assert((a + b)[i] == a[i]);
            } else {
                assert((a + b)[i] == b[i - a.len()]);
            }
        }
    }
}

/// Over a tiling of ops, each side read top to bottom is its file.
#[verifier::spinoff_prover]
#[verifier::rlimit(40)]
proof fn lemma_group_rows_tiled(g: Seq<LineOp>, ls: Seq<Seq<char>>, rs: Seq<Seq<char>>, h: nat, k: int)
    requires
        0 <= k <= g.len(),
        forall|j: int| 0 <= j < g.len() ==> op_sound(#[trigger] g[j], ls, rs),
        forall|j: int| 0 <= j < g.len() ==> (#[trigger] g[j]).1 == old_cover(g.take(j)) && g[j].3 == new_cover(g.take(j)),
    ensures
        old_side(group_rows(g.take(k), ls, rs, h)) == Seq::new(old_cover(g.take(k)), |i: int| ((i + 1) as nat, ls[i])),
        new_side(group_rows(g.take(k), ls, rs, h)) == Seq::new(new_cover(g.take(k)), |i: int| ((i + 1) as nat, rs[i])),
    decreases k,
{
    if k == 0 {
        assert(g.take(0) =~= Seq::<LineOp>::empty());
        assert(Seq::new(0, |i: int| ((i + 1) as nat, ls[i])) =~= Seq::<(nat, Seq<char>)>::empty());
        assert(Seq::new(0, |i: int| ((i + 1) as nat, rs[i])) =~= Seq::<(nat, Seq<char>)>::empty());
    } else {
        lemma_group_rows_tiled(g, ls, rs, h, k - 1);
        let o = g[k - 1];
        assert(g.take(k).drop_last() =~= g.take(k - 1));
        assert(g.take(k).last() == o);
        lemma_op_rows_sides(o, ls, rs, h);
        lemma_sides_concat(group_rows(g.take(k - 1), ls, rs, h), op_rows(o, ls, rs, h));
        assert(old_cover(g.take(k)) == old_cover(g.take(k - 1)) + o.2);
        assert(new_cover(g.take(k)) == new_cover(g.take(k - 1)) + o.4);
        assert(Seq::new(old_cover(g.take(k)), |i: int| ((i + 1) as nat, ls[i])) =~= Seq::new(old_cover(g.take(k - 1)), |i: int| ((i + 1) as nat, ls[i])) + Seq::new(o.2 as nat, |j: int| ((o.1 + j + 1) as nat, ls[o.1 + j])));
        assert(Seq::new(new_cover(g.take(k)), |i: int| ((i + 1) as nat, rs[i])) =~= Seq::new(new_cover(g.take(k - 1)), |i: int| ((i + 1) as nat, rs[i])) + Seq::new(o.4 as nat, |j: int| ((o.3 + j + 1) as nat, rs[o.3 + j])));
    }
}

proof fn lemma_groups_laws(gs: Seq<Seq<LineOp>>, ls: Seq<Seq<char>>, rs: Seq<Seq<char>>)
    requires
        groups_rows(gs, ls, rs).len() <= usize::MAX,
        forall|g: int, k: int| 0 <= g < gs.len() && 0 <= k < gs[g].len() ==> op_sound(#[trigger] gs[g][k], ls, rs),
    ensures
        count_added(groups_rows(gs, ls, rs)) == groups_added(gs),
        count_removed(groups_rows(gs, ls, rs)) == groups_removed(gs),
        rows_well_shaped(groups_rows(gs, ls, rs)),
        groups_hunks(gs, ls, rs).len() == gs.len(),
        forall|i: int| 0 <= i < gs.len() ==> #[trigger] groups_hunks(gs, ls, rs)[i] <= groups_rows(gs, ls, rs).len(),
        forall|i: int| 0 <= i < gs.len() - 1 ==> #[trigger] groups_hunks(gs, ls, rs)[i] < groups_rows(gs, ls, rs).len(),
        forall|i: int| 0 <= i < gs.len() && groups_hunks(gs, ls, rs)[i] < groups_rows(gs, ls, rs).len() ==> groups_rows(gs, ls, rs)[#[trigger] groups_hunks(gs, ls, rs)[i] as int].hunk == i + 1,
        forall|i: int, j: int| 0 <= i < j < gs.len() ==> #[trigger] groups_hunks(gs, ls, rs)[i] <= #[trigger] groups_hunks(gs, ls, rs)[j],
    decreases gs.len(),
{
    if gs.len() > 0 {
        let p = gs.drop_last();
        let k = (gs.len() - 1) as nat;
        assert forall|g: int, j: int| 0 <= g < p.len() && 0 <= j < p[g].len() implies op_sound(#[trigger] p[g][j], ls, rs) by {
            assert(p[g] == gs[g]);
        }
        assert(groups_rows(gs, ls, rs).len() >= groups_rows(p, ls, rs).len());
        lemma_groups_laws(p, ls, rs);
        assert forall|j: int| 0 <= j < gs.last().len() implies op_sound(#[trigger] gs.last()[j], ls, rs) by {
            assert(gs.last() == gs[gs.len() - 1]);
        }
        lemma_group_rows_laws(gs.last(), ls, rs, k + 1);
        let a = groups_rows(p, ls, rs);
        let sep: Seq<RowModel> = if k > 0 { seq![separator_row(k)] } else { Seq::empty() };
        let c = group_rows(gs.last(), ls, rs, k + 1);
        lemma_sides_concat(sep, c);
        lemma_sides_concat(a, sep + c);
        assert(groups_rows(gs, ls, rs) =~= a + (sep + c));
        if k > 0 {
            assert(count_added(sep) == 0) by {
                reveal_with_fuel(count_added, 2);
                assert(sep.drop_last() =~= Seq::<RowModel>::empty());
            }
            assert(count_removed(sep) == 0) by {
                reveal_with_fuel(count_removed, 2);
                assert(sep.drop_last() =~= Seq::<RowModel>::empty());
            }
            assert(rows_well_shaped(sep));
        }
        let rows = groups_rows(gs, ls, rs);
        let hs = groups_hunks(gs, ls, rs);
        assert(hs == groups_hunks(p, ls, rs).push((a.len() + sep.len()) as usize));
        assert(rows == a + (sep + c));
        assert forall|i: int| 0 <= i < gs.len() && hs[i] < rows.len() implies rows[#[trigger] hs[i] as int].hunk == i + 1 by {
            if i < k {
                assert(hs[i] == groups_hunks(p, ls, rs)[i]);
                if hs[i] < a.len() {
                    assert(rows[hs[i] as int] == a[hs[i] as int]);
                } else {
                    assert(i == k - 1);
                    assert(rows[hs[i] as int] == sep[0]);
                }
            } else {
                assert(rows[hs[i] as int] == c[hs[i] - a.len() - sep.len()]);
            }
        }
    }
}

/// Rows that no side of a file stands behind never appear, and each count
/// is the number of rows that carry it.
proof fn lemma_build_laws(old_text: Seq<char>, new_text: Seq<char>, context: Option<usize>, ops: Seq<LineOp>)
    requires
        build_spec(old_text, new_text, context).rows.len() <= usize::MAX,
        lines_spec(old_text) != lines_spec(new_text),
        context is None ==> op_groups(lines_spec(old_text), lines_spec(new_text), context) == seq![ops],
        context is None ==> tiles(ops, lines_spec(old_text).len(), lines_spec(new_text).len()),
        forall|g: int, k: int| 0 <= g < op_groups(lines_spec(old_text), lines_spec(new_text), context).len() && 0 <= k < op_groups(lines_spec(old_text), lines_spec(new_text), context)[g].len() ==> op_sound(#[trigger] op_groups(lines_spec(old_text), lines_spec(new_text), context)[g][k], lines_spec(old_text), lines_spec(new_text)),
    ensures
        build_laws(build_spec(old_text, new_text, context), old_text, new_text, context),
{
    let ls = lines_spec(old_text);
    let rs = lines_spec(new_text);
    let gs = op_groups(ls, rs, context);
    lemma_groups_laws(gs, ls, rs);
    if context is None {
        assert(gs.drop_last() =~= Seq::<Seq<LineOp>>::empty());
        assert(gs.last() == ops);
        assert forall|j: int| 0 <= j < ops.len() implies op_sound(#[trigger] ops[j], ls, rs) by {
            assert(gs[0] == ops);
        }
        lemma_group_rows_tiled(ops, ls, rs, 1, ops.len() as int);
        assert(ops.take(ops.len() as int) =~= ops);
        let rows = groups_rows(gs, ls, rs);
        assert(rows =~= Seq::<RowModel>::empty() + Seq::<RowModel>::empty() + group_rows(ops, ls, rs, 1));
        assert(rows =~= group_rows(ops, ls, rs, 1));
    }
}

/// The laws every built document obeys: rows are well shaped; `added` and
/// `removed` count the rows that add and remove a line; the body is
/// `Identical` exactly when the two files have the same lines; hunk markers
/// are in order, lie within the rows and land on a row of their own hunk;
/// and when the whole file is shown, each side read top to bottom is that
/// side's file, line for line and numbered from 1.
pub open spec fn build_laws(d: DocModel, old_text: Seq<char>, new_text: Seq<char>, context: Option<usize>) -> bool {
    let ls = lines_spec(old_text);
    let rs = lines_spec(new_text);
    &&& rows_well_shaped(d.rows)
    &&& d.added == count_added(d.rows)
    &&& d.removed == count_removed(d.rows)
    &&& (d.body == Body::Identical) == (ls == rs)
    &&& forall|i: int| 0 <= i < d.hunks.len() ==> #[trigger] d.hunks[i] <= d.rows.len()
    &&& forall|i: int| 0 <= i < d.hunks.len() && d.hunks[i] < d.rows.len() ==> d.rows[#[trigger] d.hunks[i] as int].hunk == i + 1
    &&& forall|i: int, j: int| 0 <= i < j < d.hunks.len() ==> #[trigger] d.hunks[i] <= #[trigger] d.hunks[j]
    &&& context is None ==> old_side(d.rows) == numbered(ls) && new_side(d.rows) == numbered(rs)
}


/// Rows that pair a changed line.
pub open spec fn count_changed(rows: Seq<RowModel>) -> nat
    decreases rows.len(),
{
    if rows.len() == 0 {
        0
    } else {
        count_changed(rows.drop_last()) + if rows.last().kind == RowKind::Changed { 1nat } else { 0nat }
    }
}

proof fn lemma_unify_concat(a: Seq<RowModel>, b: Seq<RowModel>)
    ensures
        unify_rows(a + b) == unify_rows(a) + unify_rows(b),
    decreases b.len(),
{
    if b.len() == 0 {
        assert(a + b =~= a);
        assert(unify_rows(a) + unify_rows(b) =~= unify_rows(a));
    } else {
        lemma_unify_concat(a, b.drop_last());
        assert((a + b).drop_last() =~= a + b.drop_last());
        assert((a + b).last() == b.last());
        assert(unify_rows(a + b) =~= unify_rows(a) + unify_rows(b));
    }
}

proof fn lemma_unify_rows_laws(rows: Seq<RowModel>)
    ensures
        unify_rows(rows).len() == rows.len() + count_changed(rows),
        forall|i: int| 0 <= i < unify_rows(rows).len() ==> (#[trigger] unify_rows(rows)[i]).kind != RowKind::Changed,
        rows_well_shaped(rows) ==> rows_well_shaped(unify_rows(rows)),
        count_added(unify_rows(rows)) == count_added(rows),
        count_removed(unify_rows(rows)) == count_removed(rows),
        old_side(unify_rows(rows)) == old_side(rows),
        new_side(unify_rows(rows)) == new_side(rows),
    decreases rows.len(),
{
    if rows.len() > 0 {
        let p = rows.drop_last();
        let r = rows.last();
        lemma_unify_rows_laws(p);
        let a = unify_rows(p);
        let b = unify_row(r);
        lemma_sides_concat(a, b);
        lemma_sides_concat(p, seq![r]);
        assert(p + seq![r] =~= rows);
        reveal_with_fuel(old_side, 3);
        reveal_with_fuel(new_side, 3);
        reveal_with_fuel(count_added, 3);
        reveal_with_fuel(count_removed, 3);
        if r.kind == RowKind::Changed {
            assert(b.drop_last() =~= seq![b[0]]);
            assert(seq![b[0]].drop_last() =~= Seq::<RowModel>::empty());
        } else {
            assert(b.drop_last() =~= Seq::<RowModel>::empty());
        }
        assert(seq![r].drop_last() =~= Seq::<RowModel>::empty());
        assert forall|i: int| 0 <= i < (a + b).len() implies (#[trigger] (a + b)[i]).kind != RowKind::Changed by {
            if i < a.len() {
                assert((a + b)[i] == a[i]);
            } else {
                assert((a + b)[i] == b[i - a.len()]);
            }
        }
        if rows_well_shaped(rows) {
            assert(row_well_shaped(rows[rows.len() - 1]));
            assert(rows_well_shaped(p)) by {
                assert forall|i: int| 0 <= i < p.len() implies row_well_shaped(#[trigger] p[i]) by {
                    assert(p[i] == rows[i]);
                }
            }
            assert(rows_well_shaped(b));
        }
    }
}

/// The first row that row `m` becomes carries the same hunk number.
proof fn lemma_unify_marker(rows: Seq<RowModel>, m: int)
    requires
        0 <= m < rows.len(),
    ensures
        unify_rows(rows.take(m)).len() < unify_rows(rows).len(),
        unify_rows(rows)[unify_rows(rows.take(m)).len() as int].hunk == rows[m].hunk,
{
    lemma_unify_concat(rows.take(m), rows.skip(m));
    assert(rows.take(m) + rows.skip(m) =~= rows);
    let rest = rows.skip(m);
    lemma_unify_concat(seq![rest[0]], rest.skip(1));
    assert(seq![rest[0]] + rest.skip(1) =~= rest);
    assert(unify_rows(seq![rest[0]]) == unify_row(rest[0])) by {
        reveal_with_fuel(unify_rows, 2);
        assert(seq![rest[0]].drop_last() =~= Seq::<RowModel>::empty());
        assert(seq![rest[0]].last() == rest[0]);
        assert(Seq::<RowModel>::empty() + unify_row(rest[0]) =~= unify_row(rest[0]));
    }
    assert(rest[0] == rows[m]);
    let u = unify_rows(rows);
    let pre = unify_rows(rows.take(m));
    assert(u == pre + (unify_row(rows[m]) + unify_rows(rest.skip(1))));
    assert(u[pre.len() as int] == unify_row(rows[m])[0]);
}

/// The laws of `unify`: no row is left changed; the row count grows by one
/// for each changed row; shape, counts and each side read top to bottom are
/// kept; and every hunk marker lands on the first row its hunk became, which
/// carries the same hunk number.
pub open spec fn unify_laws(u: DocModel, d: DocModel) -> bool {
    &&& forall|i: int| 0 <= i < u.rows.len() ==> (#[trigger] u.rows[i]).kind != RowKind::Changed
    &&& u.rows.len() == d.rows.len() + count_changed(d.rows)
    &&& rows_well_shaped(d.rows) ==> rows_well_shaped(u.rows)
    &&& count_added(u.rows) == count_added(d.rows)
    &&& count_removed(u.rows) == count_removed(d.rows)
    &&& old_side(u.rows) == old_side(d.rows)
    &&& new_side(u.rows) == new_side(d.rows)
    &&& u.hunks.len() == d.hunks.len()
    &&& forall|i: int| 0 <= i < u.hunks.len() ==> #[trigger] u.hunks[i] < u.rows.len() && u.rows[u.hunks[i] as int].hunk == d.rows[d.hunks[i] as int].hunk
}

/// `unify` keeps what the diff says while changing how it is drawn.
pub proof fn unify_keeps_the_diff(d: DocModel)
    requires
        forall|i: int| 0 <= i < d.hunks.len() ==> #[trigger] d.hunks[i] < d.rows.len(),
        unify_rows(d.rows).len() <= usize::MAX,
    ensures
        unify_laws(unify_spec(d), d),
{
    lemma_unify_rows_laws(d.rows);
    let u = unify_spec(d);
    assert forall|i: int| 0 <= i < u.hunks.len() implies #[trigger] u.hunks[i] < u.rows.len() && u.rows[u.hunks[i] as int].hunk == d.rows[d.hunks[i] as int].hunk by {
        lemma_unify_marker(d.rows, d.hunks[i] as int);
    }
}

} // verus!
