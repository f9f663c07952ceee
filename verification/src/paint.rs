//! What each line of the screen says and how it is painted, as text runs
//! tagged with a [`Paint`]. The event loop maps each paint to a terminal
//! style and draws the runs; everything about their content is decided
//! here.
use vstd::prelude::*;
use crate::diff::{Row, RowKind, RowModel};
use crate::git::Status;
use crate::picker::{Item, ItemModel};
use crate::text::{decimal, decimal_spec, push_decimal, push_str, string_of};
use crate::tree::{Node, NodeKind, NodeModel};
use crate::ui::{cell_runs, cell_runs_spec, runs_model};

verus! {

/// The role of a piece of text on screen; the theme gives each a style.
#[derive(Debug, Clone, Copy, PartialEq, Eq, Structural)]
pub enum Paint {
    /// No style of its own.
    Plain,
    Text,
    Dim,
    Title,
    Gutter,
    Context,
    Added,
    Removed,
    AddedWord,
    RemovedWord,
    Filler,
    Separator,
    Selection,
    MatchHit,
    Prompt,
    Status,
    StatusAccent,
    Warn,
    /// A change badge of the tree.
    Badge(Status),
    Dir,
    Border,
    BorderFocus,
    /// The bold line under the cursor.
    Bold,
}

/// One line of text runs, and the style of the whole line if it has one.
pub struct Painted {
    pub spans: Vec<(String, Paint)>,
    pub line: Option<Paint>,
}

/// Which side of a split row is drawn.
#[derive(Debug, Clone, Copy, PartialEq, Eq, Structural)]
pub enum Side {
    Old,
    New,
}

pub open spec fn spaces(n: nat) -> Seq<char> {
    Seq::new(n, |i: int| ' ')
}

pub open spec fn repeated(c: char, n: nat) -> Seq<char> {
    Seq::new(n, |i: int| c)
}

/// `format!("{:>w$}", s)`: `s` right-aligned in `w` columns.
pub open spec fn pad_left(s: Seq<char>, w: nat) -> Seq<char> {
    if s.len() >= w {
        s
    } else {
        spaces((w - s.len()) as nat) + s
    }
}

pub open spec fn sat(a: int, b: int) -> nat {
    if a >= b {
        (a - b) as nat
    } else {
        0
    }
}

fn push_repeated(out: &mut Vec<char>, c: char, n: usize)
    ensures
        final(out)@ == old(out)@ + repeated(c, n as nat),
{
    let ghost start = out@;
    let mut i: usize = 0;
    while i < n
        invariant
            i <= n,
            out@ == start + repeated(c, i as nat),
        decreases n - i,
    {
        out.push(c);
        i = i + 1;
        proof {
            assert(out@ =~= start + repeated(c, i as nat));
        }
    }
}

fn repeat_char(c: char, n: usize) -> (r: String)
    ensures
        r@ == repeated(c, n as nat),
{
    let mut out: Vec<char> = Vec::new();
    push_repeated(&mut out, c, n);
    proof {
        assert(out@ =~= repeated(c, n as nat));
    }
    string_of(&out)
}

/// `n` right-aligned in `w` columns.
fn right_aligned(out: &mut Vec<char>, n: usize, w: usize)
    ensures
        final(out)@ == old(out)@ + pad_left(decimal_spec(n as nat), w as nat),
{
    let d = decimal(n);
    let len = crate::text::chars_of(d.as_str()).len();
    if len < w {
        push_repeated(out, ' ', w - len);
    }
    push_str(out, d.as_str());
    proof {
        assert(spaces((w - len) as nat) =~= repeated(' ', (w - len) as nat));
    }
}

fn piece(text: &str, p: Paint) -> (r: (String, Paint))
    ensures
        r.0@ == text@,
        r.1 == p,
{
    (crate::text::owned(text), p)
}

// -------------------------------------------------------------- diff rows

/// The paints of a row's side: its base, its word emphasis, and its sign.
pub open spec fn side_paints(kind: RowKind, side: Side) -> (Paint, Paint, char) {
    if kind == RowKind::Context {
        (Paint::Context, Paint::Context, ' ')
    } else if side == Side::Old && (kind == RowKind::Removed || kind == RowKind::Changed) {
        (Paint::Removed, Paint::RemovedWord, '-')
    } else if side == Side::New && (kind == RowKind::Added || kind == RowKind::Changed) {
        (Paint::Added, Paint::AddedWord, '+')
    } else {
        // This side has no line at all.
        (Paint::Filler, Paint::Filler, ' ')
    }
}

pub open spec fn cursor_mark(is_cursor: bool) -> Seq<char> {
    if is_cursor {
        seq!['\u{258c}']
    } else {
        seq![' ']
    }
}

pub open spec fn separator_spec(width: nat) -> Seq<(Seq<char>, Paint)> {
    seq![(repeated('\u{b7}', if width >= 1 { width } else { 1 }), Paint::Separator)]
}

/// One side of a row of the split layout, `width` columns wide: the cursor
/// mark, then the line number right-aligned in `gutter` columns, the sign
/// and the text; or filler where this side has no line.
pub open spec fn side_line_spec(
    row: RowModel,
    side: Side,
    is_cursor: bool,
    gutter: usize,
    width: usize,
    hscroll: usize,
    query: Seq<char>,
) -> Seq<(Seq<char>, Paint)> {
    if row.kind == RowKind::Separator {
        separator_spec(width as nat)
    } else {
        let cell = if side == Side::Old { row.old } else { row.new };
        let (base, emph, sign) = side_paints(row.kind, side);
        let head = seq![(cursor_mark(is_cursor), Paint::BorderFocus)];
        match cell {
            None => head + seq![(spaces(sat(width as int, 1)), Paint::Filler)],
            Some(c) => head + seq![
                (pad_left(decimal_spec(c.number), gutter as nat) + seq![' '], Paint::Gutter),
                (seq![sign], base),
            ] + cell_runs_spec(
                c.text,
                c.emphasis,
                query,
                base,
                emph,
                Paint::MatchHit,
                hscroll,
                sat(width as int, gutter + 3) as usize,
            ),
        }
    }
}

fn separator_line(width: usize) -> (r: Painted)
    ensures
        runs_model(r.spans@) == separator_spec(width as nat),
        r.line is None,
{
    let mut spans: Vec<(String, Paint)> = Vec::new();
    spans.push((repeat_char('\u{b7}', if width >= 1 { width } else { 1 }), Paint::Separator));
    proof {
        assert(runs_model(spans@) =~= separator_spec(width as nat));
    }
    Painted { spans, line: None }
}

fn cursor_piece(is_cursor: bool) -> (r: (String, Paint))
    ensures
        r.0@ == cursor_mark(is_cursor),
        r.1 == Paint::BorderFocus,
{
    let mut v: Vec<char> = Vec::new();
    v.push(if is_cursor { '\u{258c}' } else { ' ' });
    proof {
        assert(v@ =~= cursor_mark(is_cursor));
    }
    (string_of(&v), Paint::BorderFocus)
}

fn append_runs(spans: &mut Vec<(String, Paint)>, runs: Vec<(String, Paint)>)
    ensures
        runs_model(final(spans)@) == runs_model(old(spans)@) + runs_model(runs@),
{
    let ghost start = runs_model(spans@);
    let mut i: usize = 0;
    while i < runs.len()
        invariant
            i <= runs@.len(),
            runs_model(spans@) == start + runs_model(runs@).take(i as int),
        decreases runs@.len() - i,
    {
        let (t, p) = &runs[i];
        let ghost before = runs_model(spans@);
        spans.push((crate::text::owned(t.as_str()), *p));
        proof {
            assert(runs_model(spans@) =~= before.push((runs@[i as int].0@, runs@[i as int].1)));
            assert(runs_model(runs@).take(i + 1) =~= runs_model(runs@).take(i as int).push(runs_model(runs@)[i as int]));
            assert(runs_model(spans@) =~= start + runs_model(runs@).take(i + 1));
        }
        i = i + 1;
    }
    proof {
        assert(runs_model(runs@).take(i as int) =~= runs_model(runs@));
    }
}

/// One side of a row of the split layout.
pub fn side_line(
    row: &Row,
    side: Side,
    is_cursor: bool,
    gutter: usize,
    width: usize,
    hscroll: usize,
    query: &str,
) -> (r: Painted)
    requires
        gutter + 3 <= usize::MAX,
    ensures
        runs_model(r.spans@) == side_line_spec(row@, side, is_cursor, gutter, width, hscroll, query@),
        r.line == (if is_cursor && row@.kind != RowKind::Separator { Some(Paint::Bold) } else { None::<Paint> }),
{
    if row.kind == RowKind::Separator {
        return separator_line(width);
    }
    let cell = match side {
        Side::Old => &row.old,
        Side::New => &row.new,
    };
    let (base, emph, sign): (Paint, Paint, char) = if row.kind == RowKind::Context {
        (Paint::Context, Paint::Context, ' ')
    } else if side == Side::Old && (row.kind == RowKind::Removed || row.kind == RowKind::Changed) {
        (Paint::Removed, Paint::RemovedWord, '-')
    } else if side == Side::New && (row.kind == RowKind::Added || row.kind == RowKind::Changed) {
        (Paint::Added, Paint::AddedWord, '+')
    } else {
        (Paint::Filler, Paint::Filler, ' ')
    };
    let mut spans: Vec<(String, Paint)> = Vec::new();
    spans.push(cursor_piece(is_cursor));
    let ghost head = runs_model(spans@);
    match cell {
        None => {
            // Fill the row so the block of colour makes the gap obvious.
            spans.push((repeat_char(' ', if width >= 1 { width - 1 } else { 0 }), Paint::Filler));
            proof {
                assert(repeated(' ', sat(width as int, 1)) =~= spaces(sat(width as int, 1)));
                assert(runs_model(spans@) =~= head + seq![(spaces(sat(width as int, 1)), Paint::Filler)]);
            }
        },
        Some(c) => {
            let mut g: Vec<char> = Vec::new();
            right_aligned(&mut g, c.number, gutter);
            g.push(' ');
            spans.push((string_of(&g), Paint::Gutter));
            let mut sg: Vec<char> = Vec::new();
            sg.push(sign);
            spans.push((string_of(&sg), base));
            proof {
                assert(g@ =~= pad_left(decimal_spec(c.number as nat), gutter as nat) + seq![' ']);
                assert(sg@ =~= seq![sign]);
                assert(runs_model(spans@) =~= head + seq![
                    (pad_left(decimal_spec(c.number as nat), gutter as nat) + seq![' '], Paint::Gutter),
                    (seq![sign], base),
                ]);
            }
            let text_width = if width >= gutter + 3 {
                width - (gutter + 3)
            } else {
                0
            };
            let runs = cell_runs(c.text.as_str(), c.emphasis.as_slice(), query, base, emph, Paint::MatchHit, hscroll, text_width);
            append_runs(&mut spans, runs);
        },
    }
    Painted { spans, line: if is_cursor { Some(Paint::Bold) } else { None } }
}

/// A row of the unified layout: the cursor mark, the line numbers of both
/// sides (blank where a side has none), the sign and the text.
pub open spec fn unified_line_spec(row: RowModel, is_cursor: bool, gutter: usize, hscroll: usize, query: Seq<char>) -> Seq<(Seq<char>, Paint)> {
    if row.kind == RowKind::Separator {
        separator_spec(60)
    } else {
        let (cell, base, emph, sign) = if row.kind == RowKind::Context {
            (row.new, Paint::Context, Paint::Context, ' ')
        } else if row.kind == RowKind::Removed {
            (row.old, Paint::Removed, Paint::RemovedWord, '-')
        } else {
            (row.new, Paint::Added, Paint::AddedWord, '+')
        };
        let head = seq![(cursor_mark(is_cursor), Paint::BorderFocus)];
        let old_no = match row.old {
            Some(c) => pad_left(decimal_spec(c.number), gutter as nat),
            None => spaces(gutter as nat),
        };
        let new_no = match row.new {
            Some(c) => pad_left(decimal_spec(c.number), gutter as nat),
            None => spaces(gutter as nat),
        };
        match cell {
            None => head,
            Some(c) => head + seq![(old_no + seq![' '] + new_no + seq![' '], Paint::Gutter), (seq![sign], base)]
                + cell_runs_spec(c.text, c.emphasis, query, base, emph, Paint::MatchHit, hscroll, usize::MAX),
        }
    }
}

fn line_number_or_blank(out: &mut Vec<char>, c: &Option<crate::diff::Cell>, gutter: usize)
    ensures
        final(out)@ == old(out)@ + match crate::diff::opt_cell(*c) {
            Some(m) => pad_left(decimal_spec(m.number), gutter as nat),
            None => spaces(gutter as nat),
        },
{
    match c {
        Some(cell) => right_aligned(out, cell.number, gutter),
        None => {
            push_repeated(out, ' ', gutter);
            proof {
                assert(repeated(' ', gutter as nat) =~= spaces(gutter as nat));
            }
        },
    }
}

/// A row of the unified layout.
pub fn unified_line(row: &Row, is_cursor: bool, gutter: usize, hscroll: usize, query: &str) -> (r: Painted)
    ensures
        runs_model(r.spans@) == unified_line_spec(row@, is_cursor, gutter, hscroll, query@),
        r.line == (if is_cursor && row@.kind != RowKind::Separator && (if row@.kind == RowKind::Removed {
            row@.old is Some
        } else {
            row@.new is Some
        }) { Some(Paint::Bold) } else { None::<Paint> }),
{
    if row.kind == RowKind::Separator {
        return separator_line(60);
    }
    let (cell, base, emph, sign): (&Option<crate::diff::Cell>, Paint, Paint, char) = if row.kind == RowKind::Context {
        (&row.new, Paint::Context, Paint::Context, ' ')
    } else if row.kind == RowKind::Removed {
        (&row.old, Paint::Removed, Paint::RemovedWord, '-')
    } else {
        (&row.new, Paint::Added, Paint::AddedWord, '+')
    };
    let mut spans: Vec<(String, Paint)> = Vec::new();
    spans.push(cursor_piece(is_cursor));
    let ghost head = runs_model(spans@);
    let c = match cell {
        Some(c) => c,
        None => {
            proof {
                assert(runs_model(spans@) =~= head);
            }
            return Painted { spans, line: None };
        },
    };
    // Two gutters: the line's number on the old side, then on the new side.
    let mut g: Vec<char> = Vec::new();
    line_number_or_blank(&mut g, &row.old, gutter);
    g.push(' ');
    line_number_or_blank(&mut g, &row.new, gutter);
    g.push(' ');
    spans.push((string_of(&g), Paint::Gutter));
    let mut sg: Vec<char> = Vec::new();
    sg.push(sign);
    spans.push((string_of(&sg), base));
    proof {
        assert(sg@ =~= seq![sign]);
    }
    let runs = cell_runs(c.text.as_str(), c.emphasis.as_slice(), query, base, emph, Paint::MatchHit, hscroll, usize::MAX);
    append_runs(&mut spans, runs);
    proof {
        let old_no = match row@.old {
            Some(c) => pad_left(decimal_spec(c.number), gutter as nat),
            None => spaces(gutter as nat),
        };
        let new_no = match row@.new {
            Some(c) => pad_left(decimal_spec(c.number), gutter as nat),
            None => spaces(gutter as nat),
        };
        assert(g@ =~= old_no + seq![' '] + new_no + seq![' ']);
    }
    Painted { spans, line: if is_cursor { Some(Paint::Bold) } else { None } }
}


// ------------------------------------------------------------------- tree

/// neo-tree's indent guides: a rail for every ancestor below the top level
/// that still has siblings below it, blank space for one that does not.
pub open spec fn rails(guides: Seq<bool>) -> Seq<char>
    decreases guides.len(),
{
    if guides.len() <= 1 {
        Seq::empty()
    } else {
        rails(guides.drop_last()) + if guides.last() {
            seq![' ', ' ']
        } else {
            seq!['\u{2502}', ' ']
        }
    }
}

/// The rails, then a tee or an elbow for a row below the top level.
pub open spec fn guide_spec(n: NodeModel) -> Seq<char> {
    rails(n.guides) + if n.depth > 0 {
        if n.last_child {
            seq!['\u{2514}', ' ']
        } else {
            seq!['\u{251c}', ' ']
        }
    } else {
        Seq::empty()
    }
}

/// A row of the tree: its guides; for a directory the open or closed
/// arrow, its name and how many changed files it holds; for a file its
/// change badge and its name.
pub open spec fn tree_line_spec(n: NodeModel) -> Seq<(Seq<char>, Paint)> {
    let guide = seq![(guide_spec(n), Paint::Dim)];
    match n.kind {
        NodeKind::Dir => guide + seq![
            (if n.expanded { seq!['\u{25be}', ' '] } else { seq!['\u{25b8}', ' '] }, Paint::Dir),
            (n.name, Paint::Dir),
            (seq![' '] + decimal_spec(n.count), Paint::Dim),
        ],
        NodeKind::File(_) => guide + seq![
            (
                match n.status {
                    Some(s) => crate::git::badge_spec(s),
                    None => seq![' '],
                } + seq![' '],
                match n.status {
                    Some(s) => Paint::Badge(s),
                    None => Paint::Dim,
                },
            ),
            (n.name, Paint::Text),
        ],
    }
}

/// The selected row is highlighted, fully only in the focused pane.
pub open spec fn tree_line_style(selected: bool, focused: bool) -> Option<Paint> {
    if !selected {
        None
    } else if focused {
        Some(Paint::Selection)
    } else {
        Some(Paint::Bold)
    }
}

pub fn tree_line(node: &Node, selected: bool, focused: bool) -> (r: Painted)
    ensures
        runs_model(r.spans@) == tree_line_spec(node@),
        r.line == tree_line_style(selected, focused),
{
    let ghost m = node@;
    let mut guide: Vec<char> = Vec::new();
    if node.guides.len() > 1 {
        let mut k: usize = 1;
        proof {
            assert(m.guides.take(1).len() == 1);
            assert(rails(m.guides.take(1)) =~= Seq::<char>::empty());
        }
        while k < node.guides.len()
            invariant
                m == node@,
                1 <= k <= node.guides@.len(),
                guide@ == rails(m.guides.take(k as int)),
            decreases node.guides@.len() - k,
        {
            proof {
                assert(m.guides.take(k + 1).drop_last() =~= m.guides.take(k as int));
                assert(m.guides.take(k + 1).last() == m.guides[k as int]);
            }
            if node.guides[k] {
                guide.push(' ');
                guide.push(' ');
            } else {
                guide.push('\u{2502}');
                guide.push(' ');
            }
            k = k + 1;
        }
        proof {
            assert(m.guides.take(k as int) =~= m.guides);
        }
    } else {
        proof {
            assert(guide@ =~= rails(m.guides));
        }
    }
    if node.depth > 0 {
        if node.last_child {
            guide.push('\u{2514}');
        } else {
            guide.push('\u{251c}');
        }
        guide.push(' ');
    }
    proof {
        assert(guide@ =~= guide_spec(m));
    }
    let mut spans: Vec<(String, Paint)> = Vec::new();
    spans.push((string_of(&guide), Paint::Dim));
    match node.kind {
        NodeKind::Dir => {
            spans.push(piece(if node.expanded { "\u{25be} " } else { "\u{25b8} " }, Paint::Dir));
            spans.push((crate::text::owned(node.name.as_str()), Paint::Dir));
            let mut count: Vec<char> = Vec::new();
            count.push(' ');
            push_decimal(&mut count, node.count);
            spans.push((string_of(&count), Paint::Dim));
            proof {
                reveal_strlit("\u{25be} ");
                reveal_strlit("\u{25b8} ");
                assert(count@ =~= seq![' '] + decimal_spec(m.count));
                assert(spans@.len() == 4);
                assert(runs_model(spans@)[0] == (guide_spec(m), Paint::Dim));
                assert(runs_model(spans@)[1] == (if m.expanded { seq!['\u{25be}', ' '] } else { seq!['\u{25b8}', ' '] }, Paint::Dir));
                assert(runs_model(spans@)[2] == (m.name, Paint::Dir));
                assert(runs_model(spans@)[3] == (seq![' '] + decimal_spec(m.count), Paint::Dim));
                assert(runs_model(spans@) =~= tree_line_spec(m));
            }
        },
        NodeKind::File(_) => {
            let mut badge: Vec<char> = Vec::new();
            let paint = match node.status {
                Some(s) => {
                    push_str(&mut badge, s.badge());
                    Paint::Badge(s)
                },
                None => {
                    badge.push(' ');
                    Paint::Dim
                },
            };
            badge.push(' ');
            spans.push((string_of(&badge), paint));
            spans.push((crate::text::owned(node.name.as_str()), Paint::Text));
            proof {
                let b = match m.status {
                    Some(s) => crate::git::badge_spec(s),
                    None => seq![' '],
                } + seq![' '];
                assert(badge@ =~= b);
                assert(spans@.len() == 3);
                assert(runs_model(spans@)[0] == (guide_spec(m), Paint::Dim));
                assert(runs_model(spans@)[1].0 == b);
                assert(runs_model(spans@)[2] == (m.name, Paint::Text));
                assert(runs_model(spans@) =~= tree_line_spec(m));
            }
        },
    }
    Painted {
        spans,
        line: if !selected {
            None
        } else if focused {
            Some(Paint::Selection)
        } else {
            Some(Paint::Bold)
        },
    }
}

/// The first row a window of `height` rows shows so that row `selected`
/// is inside it, moving from `offset` no more than needed and never past
/// the last of `len` rows.
pub open spec fn window_spec(selected: int, offset: int, height: int, len: int) -> int {
    let o = if selected < offset {
        selected
    } else if height > 0 && selected >= offset + height {
        selected + 1 - height
    } else {
        offset
    };
    let m = sat(len, height) as int;
    if o <= m {
        o
    } else {
        m
    }
}

pub fn window(selected: usize, offset: usize, height: usize, len: usize) -> (r: usize)
    requires
        offset + height <= usize::MAX,
    ensures
        r == window_spec(selected as int, offset as int, height as int, len as int),
{
    let o = if selected < offset {
        selected
    } else if height > 0 && selected >= offset + height {
        selected - height + 1
    } else {
        offset
    };
    let m = if len >= height {
        len - height
    } else {
        0
    };
    if o <= m {
        o
    } else {
        m
    }
}

// ----------------------------------------------------------------- picker

pub open spec fn hit_paint(indices: Seq<u32>, k: int) -> Paint {
    if indices.contains(k as u32) {
        Paint::MatchHit
    } else {
        Paint::Text
    }
}

/// The first `k` characters of `display` in runs: the characters the fuzzy
/// matcher landed on apart from the others.
pub open spec fn hit_runs(display: Seq<char>, indices: Seq<u32>, k: int) -> Seq<(Seq<char>, Paint)>
    decreases k,
{
    if k <= 0 {
        Seq::empty()
    } else {
        let before = hit_runs(display, indices, k - 1);
        let p = hit_paint(indices, k - 1);
        if before.len() > 0 && before.last().1 == p {
            before.drop_last().push((before.last().0.push(display[k - 1]), p))
        } else {
            before.push((seq![display[k - 1]], p))
        }
    }
}

/// An entry of the result list: the selection mark, the display text with
/// the matched characters highlighted, and the detail pushed to the right
/// edge of `width` columns.
pub open spec fn result_line_spec(item: ItemModel, selected: bool, width: usize) -> Seq<(Seq<char>, Paint)> {
    let d = item.candidate.display;
    let head = seq![(if selected { seq!['\u{258c}', ' '] } else { seq![' ', ' '] }, Paint::BorderFocus)];
    let body = head + hit_runs(d, item.indices, d.len() as int);
    let detail = item.candidate.detail;
    if detail.len() == 0 {
        body
    } else {
        body + seq![
            (spaces(sat(width as int, (2 + d.len() + detail.len() + 1) as int)), Paint::Plain),
            (detail, Paint::Dim),
        ]
    }
}

/// Highlighting the matched characters of an entry keeps all of its
/// characters, in order.
pub proof fn highlights_keep_the_text(display: Seq<char>, indices: Seq<u32>, k: int)
    requires
        0 <= k <= display.len(),
    ensures
        run_chars(hit_runs(display, indices, k)) == display.take(k),
    decreases k,
{
    if k > 0 {
        highlights_keep_the_text(display, indices, k - 1);
        let before = hit_runs(display, indices, k - 1);
        let p = hit_paint(indices, k - 1);
        if before.len() > 0 && before.last().1 == p {
            let r = before.drop_last().push((before.last().0.push(display[k - 1]), p));
            assert(r.drop_last() =~= before.drop_last());
            assert(before.drop_last() + seq![before.last()] =~= before);
            lemma_run_chars_split(before);
            lemma_run_chars_split(r);
        } else {
            let r = before.push((seq![display[k - 1]], p));
            assert(r.drop_last() =~= before);
        }
        assert(display.take(k) =~= display.take(k - 1).push(display[k - 1]));
    }
}

/// The characters of a sequence of runs, in order.
pub open spec fn run_chars(runs: Seq<(Seq<char>, Paint)>) -> Seq<char>
    decreases runs.len(),
{
    if runs.len() == 0 {
        Seq::empty()
    } else {
        run_chars(runs.drop_last()) + runs.last().0
    }
}

proof fn lemma_run_chars_split(runs: Seq<(Seq<char>, Paint)>)
    requires
        runs.len() > 0,
    ensures
        run_chars(runs) == run_chars(runs.drop_last()) + runs.last().0,
{
}

pub fn result_line(item: &Item, selected: bool, width: usize) -> (r: Painted)
    ensures
        runs_model(r.spans@) == result_line_spec(item@, selected, width),
        r.line == (if selected { Some(Paint::Selection) } else { None::<Paint> }),
{
    let ghost m = item@;
    let mut spans: Vec<(String, Paint)> = Vec::new();
    let mut mark: Vec<char> = Vec::new();
    mark.push(if selected { '\u{258c}' } else { ' ' });
    mark.push(' ');
    proof {
        assert(mark@ =~= (if selected { seq!['\u{258c}', ' '] } else { seq![' ', ' '] }));
    }
    spans.push((string_of(&mark), Paint::BorderFocus));
    let ghost head = runs_model(spans@);
    proof {
        assert(head =~= seq![(if selected { seq!['\u{258c}', ' '] } else { seq![' ', ' '] }, Paint::BorderFocus)]);
    }
    let cs = crate::text::chars_of(item.candidate.display.as_str());
    // Runs of matched and unmatched characters, the last one still open.
    let mut runs: Vec<(Vec<char>, Paint)> = Vec::new();
    let mut k: usize = 0;
    while k < cs.len()
        invariant
            k <= cs@.len(),
            cs@ == m.candidate.display,
            m == item@,
            Seq::new(runs@.len(), |q: int| (runs@[q].0@, runs@[q].1)) == hit_runs(cs@, m.indices, k as int),
        decreases cs@.len() - k,
    {
        let hit = contains_u32(&item.indices, k as u32);
        let p = if hit {
            Paint::MatchHit
        } else {
            Paint::Text
        };
        let ghost before = Seq::new(runs@.len(), |q: int| (runs@[q].0@, runs@[q].1));
        let n = runs.len();
        if n > 0 && runs[n - 1].1 == p {
            let (mut last, lp) = runs.pop().unwrap();
            last.push(cs[k]);
            runs.push((last, lp));
            proof {
                assert(Seq::new(runs@.len(), |q: int| (runs@[q].0@, runs@[q].1)) =~= before.drop_last().push(
                    (before.last().0.push(cs@[k as int]), p),
                ));
            }
        } else {
            let mut one: Vec<char> = Vec::new();
            one.push(cs[k]);
            runs.push((one, p));
            proof {
                assert(Seq::new(runs@.len(), |q: int| (runs@[q].0@, runs@[q].1)) =~= before.push((seq![cs@[k as int]], p)));
            }
        }
        k = k + 1;
    }
    let mut j: usize = 0;
    let ghost hr = hit_runs(cs@, m.indices, cs@.len() as int);
    while j < runs.len()
        invariant
            j <= runs@.len(),
            Seq::new(runs@.len(), |q: int| (runs@[q].0@, runs@[q].1)) == hr,
            runs_model(spans@) == head + hr.take(j as int),
        decreases runs@.len() - j,
    {
        let ghost before = runs_model(spans@);
        spans.push((string_of(&runs[j].0), runs[j].1));
        proof {
            assert(runs_model(spans@) =~= before.push(hr[j as int]));
            assert(hr.take(j + 1) =~= hr.take(j as int).push(hr[j as int]));
        }
        j = j + 1;
    }
    proof {
        assert(hr.take(j as int) =~= hr);
        assert(runs_model(spans@) == head + hit_runs(m.candidate.display, m.indices, m.candidate.display.len() as int));
    }
    let detail = item.candidate.detail.as_str();
    if !detail.is_empty() {
        let used: u128 = 2 + cs.len() as u128 + crate::text::chars_of(detail).len() as u128 + 1;
        let pad: usize = if (width as u128) >= used {
            (width as u128 - used) as usize
        } else {
            0
        };
        let ghost before = runs_model(spans@);
        spans.push((repeat_char(' ', pad), Paint::Plain));
        spans.push((crate::text::owned(detail), Paint::Dim));
        proof {
            assert(repeated(' ', pad as nat) =~= spaces(pad as nat));
            assert(pad == sat(width as int, (2 + m.candidate.display.len() + m.candidate.detail.len() + 1) as int));
            assert(runs_model(spans@) =~= before + seq![(spaces(pad as nat), Paint::Plain), (detail@, Paint::Dim)]);
        }
    }
    Painted { spans, line: if selected { Some(Paint::Selection) } else { None } }
}

fn contains_u32(v: &Vec<u32>, x: u32) -> (r: bool)
    ensures
        r == v@.contains(x),
{
    let mut i: usize = 0;
    while i < v.len()
        invariant
            i <= v@.len(),
            forall|q: int| 0 <= q < i ==> v@[q] != x,
        decreases v@.len() - i,
    {
        if v[i] == x {
            return true;
        }
        i = i + 1;
    }
    false
}

// ---------------------------------------------------------------- preview

/// The first line a preview of `height` lines shows: a third of the way
/// above the focused line, but never past the end of `len` lines.
pub open spec fn preview_start_spec(focus: int, height: int, len: int) -> int {
    let start = sat(focus, height / 3) as int;
    let m = sat(len, if height <= len { height } else { len }) as int;
    if start <= m {
        start
    } else {
        m
    }
}

pub fn preview_start(focus: usize, height: usize, len: usize) -> (r: usize)
    ensures
        r == preview_start_spec(focus as int, height as int, len as int),
{
    let third = height / 3;
    let start = if focus >= third {
        focus - third
    } else {
        0
    };
    let shown = if height <= len {
        height
    } else {
        len
    };
    let m = len - shown;
    if start <= m {
        start
    } else {
        m
    }
}


// ------------------------------------------------------------------- help

/// Index of the first of `s` from `i` on whose description sorts after
/// `key`.
pub open spec fn first_after_key(s: Seq<(Seq<char>, Seq<char>)>, key: Seq<char>, i: int) -> int
    decreases s.len() - i,
{
    if i < 0 || i >= s.len() {
        s.len() as int
    } else if crate::text::seq_lt(key, s[i].1) {
        i
    } else {
        first_after_key(s, key, i + 1)
    }
}

/// The entries ordered by description, entries with equal descriptions in
/// the order they came (`slice::sort_by`, which is stable): each entry goes
/// in after every entry whose description does not sort after its own.
pub open spec fn by_description(v: Seq<(Seq<char>, Seq<char>)>) -> Seq<(Seq<char>, Seq<char>)>
    decreases v.len(),
{
    if v.len() == 0 {
        Seq::empty()
    } else {
        let s = by_description(v.drop_last());
        s.insert(first_after_key(s, v.last().1, 0), v.last())
    }
}

proof fn lemma_first_after_key_bounds(s: Seq<(Seq<char>, Seq<char>)>, key: Seq<char>, i: int)
    requires
        0 <= i <= s.len(),
    ensures
        i <= first_after_key(s, key, i) <= s.len(),
    decreases s.len() - i,
{
    if i < s.len() && !crate::text::seq_lt(key, s[i].1) {
        lemma_first_after_key_bounds(s, key, i + 1);
    }
}

pub open spec fn pairs_model(v: Seq<(String, String)>) -> Seq<(Seq<char>, Seq<char>)> {
    Seq::new(v.len(), |i: int| (v[i].0@, v[i].1@))
}

fn sort_by_description(v: Vec<(String, String)>) -> (r: Vec<(String, String)>)
    ensures
        pairs_model(r@) == by_description(pairs_model(v@)),
{
    let ghost m = pairs_model(v@);
    let mut out: Vec<(String, String)> = Vec::new();
    let mut i: usize = 0;
    proof {
        assert(m.take(0) =~= Seq::<(Seq<char>, Seq<char>)>::empty());
        assert(pairs_model(out@) =~= Seq::<(Seq<char>, Seq<char>)>::empty());
    }
    while i < v.len()
        invariant
            i <= v@.len(),
            m == pairs_model(v@),
            pairs_model(out@) == by_description(m.take(i as int)),
        decreases v@.len() - i,
    {
        let ghost s = pairs_model(out@);
        let key = v[i].1.as_str();
        let mut p: usize = 0;
        proof {
            lemma_first_after_key_bounds(s, key@, 0);
        }
        while p < out.len() && !crate::text::str_less(key, out[p].1.as_str())
            invariant
                p <= out@.len(),
                s == pairs_model(out@),
                first_after_key(s, key@, p as int) == first_after_key(s, key@, 0),
            decreases out@.len() - p,
        {
            p = p + 1;
        }
        proof {
            assert(m.take(i + 1).drop_last() =~= m.take(i as int));
            assert(m.take(i + 1).last() == m[i as int]);
        }
        out.insert(p, (crate::text::owned(v[i].0.as_str()), crate::text::owned(key)));
        proof {
            assert(pairs_model(out@) =~= s.insert(p as int, m[i as int]));
        }
        i = i + 1;
    }
    proof {
        assert(m.take(i as int) =~= m);
    }
    out
}

/// `format!("{s:<w$}")`: `s` left-aligned in `w` columns.
pub open spec fn pad_right(s: Seq<char>, w: nat) -> Seq<char> {
    if s.len() >= w {
        s
    } else {
        s + spaces((w - s.len()) as nat)
    }
}

/// One line of the help screen: the keys, then what they do.
pub open spec fn help_entry(keys: Seq<char>, what: Seq<char>) -> Seq<(Seq<char>, Paint)> {
    seq![(spaces(4) + pad_right(keys, 12), Paint::Prompt), (what, Paint::Text)]
}

pub open spec fn help_entries(v: Seq<(Seq<char>, Seq<char>)>) -> Seq<Seq<(Seq<char>, Paint)>> {
    Seq::new(v.len(), |i: int| help_entry(v[i].0, v[i].1))
}

/// A pane's section of the help screen: its heading, its bindings by
/// description, and a blank line.
pub open spec fn help_section(heading: Seq<char>, table: Seq<(Seq<crate::keys::Key>, crate::keys::Action)>) -> Seq<Seq<(Seq<char>, Paint)>> {
    let entries = Seq::new(
        table.len(),
        |i: int| (crate::keys::render_all(table[i].0), crate::ui::describe_spec(table[i].1)),
    );
    seq![seq![(spaces(2) + heading, Paint::Title)]] + help_entries(by_description(entries)) + seq![Seq::empty()]
}

/// The picker's own keys, for the help screen.
pub open spec fn picker_help_spec() -> Seq<(Seq<char>, Seq<char>)> {
    seq![
        ("<C-j> <C-n>"@, "next result"@),
        ("<C-k> <C-p>"@, "previous result"@),
        ("<CR>"@, "open"@),
        ("<C-q>"@, "send results to the quickfix list"@),
        ("<C-u>"@, "clear the prompt"@),
        ("<C-w>"@, "delete the previous word"@),
        ("<Esc>"@, "close"@),
    ]
}

/// The help screen: the diff pane's bindings, the tree pane's, then the
/// picker's keys.
pub open spec fn help_spec(map: crate::keys::Keymap) -> Seq<Seq<(Seq<char>, Paint)>> {
    help_section("diff pane"@, map.table(crate::keys::Context::Diff)) + help_section(
        "tree pane"@,
        map.table(crate::keys::Context::Tree),
    ) + seq![seq![(spaces(2) + "picker"@, Paint::Title)]] + help_entries(picker_help_spec())
}

pub open spec fn lines_model(v: Seq<Painted>) -> Seq<Seq<(Seq<char>, Paint)>> {
    Seq::new(v.len(), |i: int| runs_model(v[i].spans@))
}

fn help_line(keys: &str, what: &str) -> (r: Painted)
    ensures
        runs_model(r.spans@) == help_entry(keys@, what@),
        r.line is None,
{
    let mut k: Vec<char> = Vec::new();
    push_repeated(&mut k, ' ', 4);
    push_str(&mut k, keys);
    let n = crate::text::chars_of(keys).len();
    if n < 12 {
        push_repeated(&mut k, ' ', 12 - n);
    }
    proof {
        assert(repeated(' ', 4) =~= spaces(4));
        if n < 12 {
            assert(repeated(' ', (12 - n) as nat) =~= spaces((12 - n) as nat));
        }
        assert(k@ =~= spaces(4) + pad_right(keys@, 12));
    }
    let mut spans: Vec<(String, Paint)> = Vec::new();
    spans.push((string_of(&k), Paint::Prompt));
    spans.push((crate::text::owned(what), Paint::Text));
    proof {
        assert(runs_model(spans@) =~= help_entry(keys@, what@));
    }
    Painted { spans, line: None }
}

fn heading_line(text: &str) -> (r: Painted)
    ensures
        runs_model(r.spans@) == seq![(spaces(2) + text@, Paint::Title)],
        r.line is None,
{
    let mut h: Vec<char> = Vec::new();
    push_repeated(&mut h, ' ', 2);
    push_str(&mut h, text);
    proof {
        assert(repeated(' ', 2) =~= spaces(2));
    }
    let mut spans: Vec<(String, Paint)> = Vec::new();
    spans.push((string_of(&h), Paint::Title));
    proof {
        assert(runs_model(spans@) =~= seq![(spaces(2) + text@, Paint::Title)]);
    }
    Painted { spans, line: None }
}

fn push_help_section(out: &mut Vec<Painted>, heading: &str, map: &crate::keys::Keymap, ctx: crate::keys::Context)
    ensures
        lines_model(final(out)@) == lines_model(old(out)@) + help_section(heading@, map.table(ctx)),
{
    let ghost start = lines_model(out@);
    let ghost table = map.table(ctx);
    out.push(heading_line(heading));
    let entries = map.entries(ctx);
    let mut described: Vec<(String, String)> = Vec::new();
    let mut i: usize = 0;
    let ghost want = Seq::new(
        table.len(),
        |i: int| (crate::keys::render_all(table[i].0), crate::ui::describe_spec(table[i].1)),
    );
    while i < entries.len()
        invariant
            i <= entries@.len(),
            entries@.len() == table.len(),
            table == map.table(ctx),
            forall|k: int| 0 <= k < entries@.len() ==> (#[trigger] entries@[k]).0@ == crate::keys::render_all(table[k].0)
                && entries@[k].1 == table[k].1,
            want == Seq::new(
                table.len(),
                |i: int| (crate::keys::render_all(table[i].0), crate::ui::describe_spec(table[i].1)),
            ),
            pairs_model(described@) == want.take(i as int),
        decreases entries@.len() - i,
    {
        let ghost before = pairs_model(described@);
        let (k, a) = &entries[i];
        described.push((crate::text::owned(k.as_str()), crate::text::owned(crate::ui::describe(*a))));
        proof {
            assert(entries@[i as int].0@ == crate::keys::render_all(table[i as int].0));
            assert(pairs_model(described@) =~= before.push(want[i as int]));
            assert(want.take(i + 1) =~= want.take(i as int).push(want[i as int]));
        }
        i = i + 1;
    }
    proof {
        assert(want.take(i as int) =~= want);
    }
    let sorted = sort_by_description(described);
    let ghost after_heading = lines_model(out@);
    let mut j: usize = 0;
    while j < sorted.len()
        invariant
            j <= sorted@.len(),
            lines_model(out@) == after_heading + help_entries(pairs_model(sorted@)).take(j as int),
        decreases sorted@.len() - j,
    {
        let ghost before = lines_model(out@);
        out.push(help_line(sorted[j].0.as_str(), sorted[j].1.as_str()));
        proof {
            assert(lines_model(out@) =~= before.push(help_entries(pairs_model(sorted@))[j as int]));
            assert(help_entries(pairs_model(sorted@)).take(j + 1) =~= help_entries(pairs_model(sorted@)).take(j as int).push(
                help_entries(pairs_model(sorted@))[j as int],
            ));
        }
        j = j + 1;
    }
    let ghost before_blank = lines_model(out@);
    let blank = Painted { spans: Vec::new(), line: None };
    proof {
        assert(runs_model(blank.spans@) =~= Seq::<(Seq<char>, Paint)>::empty());
    }
    out.push(blank);
    proof {
        assert(help_entries(pairs_model(sorted@)).take(j as int) =~= help_entries(pairs_model(sorted@)));
        assert(lines_model(out@) =~= before_blank.push(Seq::empty()));
        assert(lines_model(out@) =~= start + help_section(heading@, table));
    }
}

/// The lines of the help screen.
pub fn help_lines(map: &crate::keys::Keymap) -> (r: Vec<Painted>)
    ensures
        lines_model(r@) == help_spec(*map),
{
    let mut out: Vec<Painted> = Vec::new();
    push_help_section(&mut out, "diff pane", map, crate::keys::Context::Diff);
    push_help_section(&mut out, "tree pane", map, crate::keys::Context::Tree);
    let ghost before = lines_model(out@);
    out.push(heading_line("picker"));
    let keys: Vec<(&str, &str)> = vec![
        ("<C-j> <C-n>", "next result"),
        ("<C-k> <C-p>", "previous result"),
        ("<CR>", "open"),
        ("<C-q>", "send results to the quickfix list"),
        ("<C-u>", "clear the prompt"),
        ("<C-w>", "delete the previous word"),
        ("<Esc>", "close"),
    ];
    let ghost ph = Seq::new(keys@.len(), |i: int| (keys@[i].0@, keys@[i].1@));
    proof {
        assert(ph =~= picker_help_spec());
    }
    let ghost after_heading = lines_model(out@);
    let mut j: usize = 0;
    while j < keys.len()
        invariant
            j <= keys@.len(),
            ph == Seq::new(keys@.len(), |i: int| (keys@[i].0@, keys@[i].1@)),
            lines_model(out@) == after_heading + help_entries(ph).take(j as int),
        decreases keys@.len() - j,
    {
        let ghost b = lines_model(out@);
        out.push(help_line(keys[j].0, keys[j].1));
        proof {
            assert(lines_model(out@) =~= b.push(help_entries(ph)[j as int]));
            assert(help_entries(ph).take(j + 1) =~= help_entries(ph).take(j as int).push(help_entries(ph)[j as int]));
        }
        j = j + 1;
    }
    proof {
        assert(help_entries(ph).take(j as int) =~= help_entries(ph));
        assert(lines_model(out@) =~= help_spec(*map));
    }
    out
}

} // verus!
