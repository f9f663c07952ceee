//! Application state and the action dispatcher.
//!
//! Everything the viewer decides lives here: key routing, the actions, cursor
//! and scroll arithmetic, search, pickers and the quickfix list. What needs
//! the outside world -- reading blobs, listing changed files, running a grep,
//! the clipboard, the editor -- is asked for with an [`Effect`]; the event
//! loop performs it and hands the answer back (`loaded`, `reloaded`,
//! `grep_done`), after which the dispatcher carries on where it stopped.
use vstd::prelude::*;
use crate::diff::{self, rows_model, Body, DocModel, Document, Row, RowModel};
use crate::git::{Blob, FileEntry, Repo, Spec};
use crate::keys::{self, Action, Context, Key, KeyCode, Keymap, Resolved, CONTROL};
use crate::picker::{candidates_model, Candidate, CandidateModel, ItemModel, Kind, Picker, Target, TargetModel};
use crate::search::{self, Hit, HitModel};
use crate::text::{
    chars_of, contains, contains_spec, decimal, folds_case, has_uppercase, is_alphanumeric,
    lowercase_of, owned, push_decimal, push_str, str_eq, string_of, to_lowercase, trim, trim_end,
    trim_spec, byte_slice, slice_spec, str_len,
};
use crate::tree::{revealed, NodeKind, Tree};
use crate::paint::{Paint, Painted};
use crate::ui::runs_model;

verus! {

/// Lines of unchanged context kept around each hunk, matching `git diff`.
pub const CONTEXT: usize = 3;

/// Rows kept between the cursor and the edge of the viewport (`scrolloff`).
pub const SCROLLOFF: usize = 4;

/// Columns moved per `h` / `l`.
pub const HSTEP: usize = 8;

/// Far enough right for any sane source line; keeps `l` from running away.
pub const MAX_HSCROLL: usize = 2000;

/// How many recently viewed paths the `<leader>fb` list keeps.
pub const RECENT_LIMIT: usize = 50;

#[derive(Debug, Clone, Copy, PartialEq, Eq, Structural)]
pub enum Layout {
    /// Old on the left, new on the right.
    Split,
    /// One column, `-`/`+` prefixed.
    Unified,
}

#[derive(Debug, Clone, Copy, PartialEq, Eq, Structural)]
pub enum PromptKind {
    /// `/` in the diff pane.
    Search,
    /// `/` in the tree pane: neo-tree's fuzzy finder.
    TreeFilter,
}

pub struct Prompt {
    pub kind: PromptKind,
    pub input: String,
}

impl Prompt {
    pub fn label(&self) -> (r: &'static str)
        ensures
            r@ == (if self.kind == PromptKind::Search { "/"@ } else { "filter "@ }),
    {
        match self.kind {
            PromptKind::Search => "/",
            PromptKind::TreeFilter => "filter ",
        }
    }
}

pub enum Overlay {
    Picker(Picker),
    Prompt(Prompt),
    Help { scroll: usize },
}

/// Something the event loop must do outside the TUI.
pub enum Effect {
    Nothing,
    /// Drop out of raw mode and run `$EDITOR`.
    OpenEditor { path: String, line: usize },
    /// Read both sides of changed file `index` and hand them to `loaded`.
    Load(usize),
    /// List the changed files again and hand the list to `reloaded`.
    Reload,
    /// Put this path on the clipboard.
    Yank(String),
    /// Run the grep backend for this query and hand the hits to `grep_done`.
    Grep(String),
}

/// What to do once a file requested with `Effect::Load` is on screen.
pub enum AfterLoad {
    Stay,
    /// Land on the row of this line of the new side.
    NewLine(usize),
    /// Keep the cursor where it was (clamped), then show a note.
    Rebuilt { keep: usize, note: Option<String> },
    /// A reload finished with this many changed files.
    Reloaded(usize),
}

pub struct Find {
    pub query: String,
    pub matches: Vec<usize>,
    pub at: usize,
}

/// Enough to reopen a picker with `<leader>fr`.
pub struct LastPicker {
    pub kind: Kind,
    pub prompt: String,
}

/// Contents of the picker's preview pane.
pub struct Preview {
    pub title: String,
    pub lines: Vec<String>,
    /// Index of the line the preview should centre on.
    pub focus: usize,
}

pub struct App {
    pub repo: Repo,
    pub spec: Spec,
    pub files: Vec<FileEntry>,
    pub tree: Tree,
    /// Index into `files` of whatever the diff panes are showing.
    pub current: Option<usize>,
    pub doc: Option<Document>,
    pub cursor: usize,
    pub offset: usize,
    /// Columns scrolled off the left of each pane, for long lines.
    pub hscroll: usize,
    /// Rows the diff pane can show; refreshed by the renderer each frame.
    pub viewport: usize,
    pub focus: Context,
    /// Scroll offset of the tree pane; the renderer keeps it in range.
    pub tree_offset: usize,
    pub show_tree: bool,
    pub tree_width: u16,
    pub layout: Layout,
    /// `za`: show the whole file instead of hunks with context.
    pub full_context: bool,
    /// `s`: put the new side on the left.
    pub swapped: bool,
    pub keymap: Keymap,
    pub pending: Vec<Key>,
    pub overlay: Option<Overlay>,
    pub message: Option<String>,
    pub quit: bool,
    pub quickfix: Vec<Target>,
    pub quickfix_at: usize,
    /// Most-recently-viewed paths, newest first -- the `<leader>fb` list.
    pub recent: Vec<String>,
    pub last_picker: Option<LastPicker>,
    pub find: Find,
    /// Whether ripgrep could be run when the viewer started.
    pub ripgrep: bool,
    /// What to do when the file being loaded arrives.
    pub after_load: AfterLoad,
    /// A key still to be handled once the outside work in progress is done.
    pub replay: Option<Key>,
}

// ------------------------------------------------------------- arithmetic

pub open spec fn sat_sub(a: int, b: int) -> int {
    if a >= b {
        a - b
    } else {
        0
    }
}

pub open spec fn min_int(a: int, b: int) -> int {
    if a <= b {
        a
    } else {
        b
    }
}

/// The scroll offset that keeps the cursor `SCROLLOFF` rows from either
/// edge of a `viewport` rows tall window (less when the window is short),
/// without scrolling past the last of `len` rows.
pub open spec fn scroll_spec(cursor: int, offset: int, viewport: int, len: int) -> int {
    let height = if viewport >= 1 { viewport } else { 1 };
    let pad = min_int(SCROLLOFF as int, (height - 1) / 2);
    let o = if cursor < offset + pad {
        sat_sub(cursor, pad)
    } else if cursor + pad >= offset + height {
        sat_sub(cursor + pad + 1, height)
    } else {
        offset
    };
    min_int(o, sat_sub(len, height))
}

/// `cursor + delta`, kept within `len` rows.
pub open spec fn clamp_row(cursor: int, delta: int, len: int) -> int {
    let next = cursor + delta;
    if next < 0 {
        0
    } else if next > len - 1 {
        len - 1
    } else {
        next
    }
}

pub open spec fn doc_rows(doc: Option<Document>) -> Seq<RowModel> {
    match doc {
        Some(d) => d@.rows,
        None => Seq::empty(),
    }
}

/// Smart-case match of a row's search text against a query.
pub open spec fn row_matches(query: Seq<char>, r: RowModel) -> bool {
    let t = diff::search_text_spec(r);
    if folds_case(query) {
        contains_spec(lowercase_of(t), lowercase_of(query))
    } else {
        contains_spec(t, query)
    }
}

/// The rows whose text contains the query, in order.
pub open spec fn matching_rows(query: Seq<char>, rows: Seq<RowModel>) -> Seq<usize>
    decreases rows.len(),
{
    if rows.len() == 0 {
        Seq::empty()
    } else {
        let before = matching_rows(query, rows.drop_last());
        if row_matches(query, rows.last()) {
            before.push((rows.len() - 1) as usize)
        } else {
            before
        }
    }
}

/// Whether CONTROL was held with the key.
pub open spec fn ctrl_held(key: Key) -> bool {
    key.mods & CONTROL != 0
}

/// The status line holds exactly this text.
pub open spec fn says(m: Option<String>, text: Seq<char>) -> bool {
    m matches Some(x) && x@ == text
}

/// A character of an identifier.
pub open spec fn is_word_spec(c: char) -> bool {
    crate::text::alphanumeric_of(c) || c == '_'
}

pub fn is_word(c: char) -> (r: bool)
    ensures
        r == is_word_spec(c),
{
    is_alphanumeric(c) || c == '_'
}

impl App {
    /// What every operation keeps: the tree is well formed.
    pub open spec fn inv(&self) -> bool {
        self.tree.wf()
    }

    pub open spec fn rows(&self) -> Seq<RowModel> {
        doc_rows(self.doc)
    }

    pub fn current_file(&self) -> (r: Option<&FileEntry>)
        ensures
            match r {
                Some(f) => self.current matches Some(i) && i < self.files@.len() && *f == self.files@[i as int],
                None => !(self.current matches Some(i) && i < self.files@.len()),
            },
    {
        match self.current {
            Some(i) => {
                if i < self.files.len() {
                    Some(&self.files[i])
                } else {
                    None
                }
            },
            None => None,
        }
    }

    pub fn current_row(&self) -> (r: Option<&Row>)
        ensures
            match r {
                Some(row) => self.cursor < self.rows().len() && row@ == self.rows()[self.cursor as int],
                None => self.cursor >= self.rows().len(),
            },
    {
        match &self.doc {
            Some(d) => {
                if self.cursor < d.rows.len() {
                    Some(&d.rows[self.cursor])
                } else {
                    None
                }
            },
            None => None,
        }
    }

    pub fn find_query(&self) -> (r: &str)
        ensures
            r@ == self.find.query@,
    {
        self.find.query.as_str()
    }

    pub fn find_matches(&self) -> (r: &[usize])
        ensures
            r@ == self.find.matches@,
    {
        self.find.matches.as_slice()
    }

    fn doc_len(&self) -> (r: usize)
        ensures
            r == self.rows().len(),
    {
        match &self.doc {
            Some(d) => d.rows.len(),
            None => 0,
        }
    }

    /// Rows in the focused pane.
    fn rows_len(&self) -> (r: usize)
        ensures
            r == (if self.focus == Context::Tree { self.tree.node_list().len() } else { self.rows().len() }),
    {
        match self.focus {
            Context::Tree => self.tree.row_count(),
            Context::Diff => self.doc_len(),
        }
    }

    /// Scroll just enough to keep the cursor `SCROLLOFF` rows from the edges.
    pub fn scroll_into_view(&mut self)
        ensures
            final(self).offset == scroll_spec(
                old(self).cursor as int,
                old(self).offset as int,
                old(self).viewport as int,
                old(self).rows().len() as int,
            ),
            *final(self) == (App { offset: final(self).offset, ..*old(self) }),
    {
        let len = self.doc_len() as u128;
        let height: u128 = if self.viewport >= 1 {
            self.viewport as u128
        } else {
            1
        };
        // With a short viewport, scrolloff would pin the cursor mid-screen.
        let half = (height - 1) / 2;
        let pad: u128 = if (SCROLLOFF as u128) <= half {
            SCROLLOFF as u128
        } else {
            half
        };
        let cursor = self.cursor as u128;
        let offset = self.offset as u128;
        let o: u128 = if cursor < offset + pad {
            if cursor >= pad {
                cursor - pad
            } else {
                0
            }
        } else if cursor + pad >= offset + height {
            if cursor + pad + 1 >= height {
                cursor + pad + 1 - height
            } else {
                0
            }
        } else {
            offset
        };
        let max_offset: u128 = if len >= height {
            len - height
        } else {
            0
        };
        let r = if o <= max_offset {
            o
        } else {
            max_offset
        };
        assert(r <= len);
        self.offset = r as usize;
    }

    fn move_cursor(&mut self, delta: isize)
        requires
            old(self).inv(),
        ensures
            final(self).inv(),
            cursor_moved(*old(self), *final(self), delta as int),
    {
        match self.focus {
            Context::Tree => {
                // A selection this far down cannot index a vector of rows.
                let sel = self.tree.selection();
                if sel <= isize::MAX as usize && (sel as i128) + (delta as i128) <= isize::MAX as i128 {
                    self.tree.move_by(delta);
                }
            },
            Context::Diff => {
                let len = self.doc_len();
                if len == 0 {
                    return;
                }
                let next: i128 = self.cursor as i128 + delta as i128;
                let last: i128 = (len - 1) as i128;
                let c: i128 = if next < 0 {
                    0
                } else if next > last {
                    last
                } else {
                    next
                };
                self.cursor = c as usize;
                self.scroll_into_view();
            },
        }
    }

    fn goto_row(&mut self, row: usize)
        requires
            old(self).inv(),
        ensures
            final(self).inv(),
            row_reached(*old(self), *final(self), row as int),
    {
        match self.focus {
            Context::Tree => {
                if row == 0 {
                    self.tree.select_first()
                } else {
                    self.tree.select_last()
                }
            },
            Context::Diff => {
                let len = self.doc_len();
                let last = if len == 0 {
                    0
                } else {
                    len - 1
                };
                self.cursor = if row < last {
                    row
                } else {
                    last
                };
                self.scroll_into_view();
            },
        }
    }

    /// `]c` / `[c`: the next or previous hunk, wrapping at either end.
    fn step_hunk(&mut self, forward: bool)
        requires
            old(self).inv(),
        ensures
            final(self).inv(),
            hunk_stepped(*old(self), *final(self), forward),
    {
        let target = match &self.doc {
            None => {
                return;
            },
            Some(doc) => doc.step_hunk(self.cursor, forward),
        };
        match target {
            None => {
                self.message = Some(owned("no hunks"));
            },
            Some((row, wrapped)) => {
                self.cursor = row;
                self.scroll_into_view();
                if wrapped {
                    // Wrap, like `]c` does at the end of a diff.
                    self.message = Some(owned("search hit the end, wrapped"));
                }
            },
        }
    }

    // ---------------------------------------------------------------- search

    /// Recompute the rows matching the search query.
    fn refresh_find(&mut self)
        ensures
            final(self).find.query@ == old(self).find.query@,
            final(self).find.at == 0,
            final(self).find.matches@ == (if old(self).find.query@.len() == 0 {
                Seq::<usize>::empty()
            } else {
                matching_rows(old(self).find.query@, old(self).rows())
            }),
            *final(self) == (App { find: final(self).find, ..*old(self) }),
    {
        self.find.matches = Vec::new();
        self.find.at = 0;
        if self.find.query.as_str().is_empty() {
            return;
        }
        let fold = !has_uppercase(self.find.query.as_str());
        let needle = if fold {
            to_lowercase(self.find.query.as_str())
        } else {
            owned(self.find.query.as_str())
        };
        let doc = match &self.doc {
            Some(d) => d,
            None => {
                return;
            },
        };
        let ghost rows = rows_model(doc.rows@);
        let ghost q = self.find.query@;
        let mut found: Vec<usize> = Vec::new();
        let mut i: usize = 0;
        proof {
            assert(rows.take(0) =~= Seq::<RowModel>::empty());
        }
        while i < doc.rows.len()
            invariant
                rows == rows_model(doc.rows@),
                q.len() > 0,
                fold == folds_case(q),
                needle@ == (if fold { lowercase_of(q) } else { q }),
                i <= doc.rows@.len(),
                found@ == matching_rows(q, rows.take(i as int)),
            decreases doc.rows@.len() - i,
        {
            let text = doc.rows[i].search_text();
            let hit = if fold {
                let low = to_lowercase(text);
                contains(low.as_str(), needle.as_str())
            } else {
                contains(text, needle.as_str())
            };
            proof {
                assert(rows.take(i + 1).drop_last() =~= rows.take(i as int));
                assert(rows.take(i + 1).last() == rows[i as int]);
            }
            if hit {
                found.push(i);
            }
            i = i + 1;
        }
        proof {
            assert(rows.take(i as int) =~= rows);
        }
        self.find.matches = found;
    }

}

// ------------------------------------------------------------------ words

/// Scanning characters into words: a word character extends the current
/// word, anything else ends it.
pub open spec fn word_step(st: (Seq<Seq<char>>, Seq<char>), c: char) -> (Seq<Seq<char>>, Seq<char>) {
    if is_word_spec(c) {
        (st.0, st.1.push(c))
    } else if st.1.len() > 0 {
        (st.0.push(st.1), Seq::empty())
    } else {
        (st.0, Seq::empty())
    }
}

pub open spec fn word_scan(s: Seq<char>) -> (Seq<Seq<char>>, Seq<char>)
    decreases s.len(),
{
    if s.len() == 0 {
        (Seq::empty(), Seq::empty())
    } else {
        word_step(word_scan(s.drop_last()), s.last())
    }
}

/// The non-empty runs of identifier characters in `s`, in order.
pub open spec fn words_spec(s: Seq<char>) -> Seq<Seq<char>> {
    let st = word_scan(s);
    if st.1.len() > 0 {
        st.0.push(st.1)
    } else {
        st.0
    }
}

/// Index of the longest of the first `k` words by UTF-8 length, the last of
/// equally long ones (`Iterator::max_by_key`).
pub open spec fn longest_word(ws: Seq<Seq<char>>, k: int) -> Option<int>
    decreases k,
{
    if k <= 0 {
        None
    } else {
        match longest_word(ws, k - 1) {
            None => Some(k - 1),
            Some(b) => if str_len(ws[k - 1]) >= str_len(ws[b]) {
                Some(k - 1)
            } else {
                Some(b)
            },
        }
    }
}

proof fn lemma_longest_word_bounds(ws: Seq<Seq<char>>, k: int)
    ensures
        longest_word(ws, k) matches Some(b) ==> 0 <= b < k,
        k > 0 ==> longest_word(ws, k) is Some,
    decreases k,
{
    if k > 0 {
        lemma_longest_word_bounds(ws, k - 1);
    }
}

/// The word `<leader>fw` greps for on a row: on a changed row the first word
/// of its first emphasised span (new side, else old), trimmed, when that
/// span holds a word character; otherwise the longest word of the row.
pub open spec fn word_at_spec(row: RowModel) -> Seq<char> {
    let cell = match row.new {
        Some(c) => Some(c),
        None => row.old,
    };
    let piece = match cell {
        Some(c) => if c.emphasis.len() > 0 {
            trim_spec(slice_spec(c.text, c.emphasis[0].0, c.emphasis[0].1))
        } else {
            Seq::empty()
        },
        None => Seq::empty(),
    };
    if words_spec(piece).len() > 0 {
        words_spec(piece)[0]
    } else {
        let ws = words_spec(diff::search_text_spec(row));
        match longest_word(ws, ws.len() as int) {
            Some(b) => ws[b],
            None => Seq::empty(),
        }
    }
}

proof fn lemma_word_scan_has_word(s: Seq<char>)
    ensures
        (exists|i: int| 0 <= i < s.len() && is_word_spec(#[trigger] s[i])) ==> words_spec(s).len() > 0,
        (words_spec(s).len() > 0) ==> (exists|i: int| 0 <= i < s.len() && is_word_spec(#[trigger] s[i])),
        word_scan(s).0.len() > 0 ==> (exists|i: int| 0 <= i < s.len() && is_word_spec(#[trigger] s[i])),
        word_scan(s).1.len() > 0 ==> is_word_spec(s.last()),
    decreases s.len(),
{
    if s.len() > 0 {
        let p = s.drop_last();
        lemma_word_scan_has_word(p);
        assert forall|i: int| 0 <= i < p.len() implies p[i] == s[i] by {}
        if exists|i: int| 0 <= i < s.len() && is_word_spec(#[trigger] s[i]) {
            let i = choose|i: int| 0 <= i < s.len() && is_word_spec(#[trigger] s[i]);
            if i < s.len() - 1 {
                assert(is_word_spec(p[i]));
            }
        }
        if word_scan(s).0.len() > 0 && word_scan(p).0.len() == 0 {
            assert(word_scan(p).1.len() > 0);
            assert(is_word_spec(p.last()));
            assert(is_word_spec(s[s.len() - 2]));
        }
        if word_scan(p).0.len() > 0 {
            let i = choose|i: int| 0 <= i < p.len() && is_word_spec(#[trigger] p[i]);
            assert(is_word_spec(s[i]));
        }
    }
}

/// The non-empty runs of identifier characters in `s`, in order.
fn word_pieces(s: &str) -> (r: Vec<String>)
    ensures
        diff::strings_model(r@) == words_spec(s@),
{
    let cs = chars_of(s);
    let mut out: Vec<String> = Vec::new();
    let mut cur: Vec<char> = Vec::new();
    let mut i: usize = 0;
    proof {
        assert(cs@.take(0) =~= Seq::<char>::empty());
        assert(diff::strings_model(out@) =~= Seq::<Seq<char>>::empty());
    }
    while i < cs.len()
        invariant
            i <= cs@.len(),
            cs@ == s@,
            (diff::strings_model(out@), cur@) == word_scan(cs@.take(i as int)),
        decreases cs@.len() - i,
    {
        proof {
            assert(cs@.take(i + 1).drop_last() =~= cs@.take(i as int));
        }
        let ghost before = diff::strings_model(out@);
        if is_word(cs[i]) {
            cur.push(cs[i]);
        } else if cur.len() > 0 {
            out.push(string_of(&cur));
            cur = Vec::new();
            proof {
                assert(diff::strings_model(out@) =~= before.push(word_scan(cs@.take(i as int)).1));
                assert(cur@ =~= Seq::<char>::empty());
            }
        } else {
            proof {
                assert(cur@ =~= Seq::<char>::empty());
            }
        }
        i = i + 1;
    }
    proof {
        assert(cs@.take(i as int) =~= cs@);
    }
    if cur.len() > 0 {
        let ghost before = diff::strings_model(out@);
        out.push(string_of(&cur));
        proof {
            assert(diff::strings_model(out@) =~= before.push(cur@));
        }
    }
    out
}

fn has_word_char(s: &str) -> (r: bool)
    ensures
        r == (exists|i: int| 0 <= i < s@.len() && is_word_spec(#[trigger] s@[i])),
{
    let cs = chars_of(s);
    let mut k: usize = 0;
    while k < cs.len()
        invariant
            k <= cs@.len(),
            cs@ == s@,
            forall|i: int| 0 <= i < k ==> !is_word_spec(#[trigger] cs@[i]),
        decreases cs@.len() - k,
    {
        if is_word(cs[k]) {
            return true;
        }
        k = k + 1;
    }
    false
}

/// The word `<leader>fw` greps for on `row`.
pub fn word_at(row: &Row) -> (r: String)
    ensures
        r@ == word_at_spec(row@),
{
    // On a changed row the interesting word is the one that changed.
    let cell = match &row.new {
        Some(c) => Some(c),
        None => match &row.old {
            Some(c) => Some(c),
            None => None,
        },
    };
    if let Some(cell) = cell {
        if cell.emphasis.len() > 0 {
            let (s, e) = cell.emphasis[0];
            let piece = trim(byte_slice(cell.text.as_str(), s, e));
            if has_word_char(piece) {
                let words = word_pieces(piece);
                proof {
                    lemma_word_scan_has_word(piece@);
                }
                return owned(words[0].as_str());
            }
            proof {
                lemma_word_scan_has_word(piece@);
            }
        }
    }
    // Otherwise the longest identifier on the line is the best guess.
    let words = word_pieces(row.search_text());
    let ghost ws = words_spec(diff::search_text_spec(row@));
    let mut best: usize = 0;
    let mut best_len: usize = 0;
    let mut found = false;
    let mut k: usize = 0;
    while k < words.len()
        invariant
            k <= words@.len(),
            diff::strings_model(words@) == ws,
            found == (k > 0),
            longest_word(ws, k as int) == (if found { Some(best as int) } else { None::<int> }),
            found ==> best < words@.len() && best_len == str_len(ws[best as int]),
        decreases words@.len() - k,
    {
        let n = words[k].as_str().len();
        proof {
            assert(ws[k as int] == words@[k as int]@);
        }
        // `max_by_key` keeps the last of equally long words.
        if !found || n >= best_len {
            best = k;
            best_len = n;
            found = true;
        }
        k = k + 1;
    }
    if found {
        proof {
            assert(ws[best as int] == words@[best as int]@);
        }
        owned(words[best].as_str())
    } else {
        String::new()
    }
}

impl App {
    /// The identifier the cursor is sitting on, for `<leader>fw`.
    pub fn word_under_cursor(&self) -> (r: String)
        ensures
            r@ == (if self.cursor < self.rows().len() {
                word_at_spec(self.rows()[self.cursor as int])
            } else {
                Seq::empty()
            }),
    {
        match self.current_row() {
            Some(row) => word_at(row),
            None => String::new(),
        }
    }
}


// ---------------------------------------------------------------- loading

/// The rows of a document that have a hunk marker on them, for every marker.
pub open spec fn hunks_on_rows(d: DocModel) -> bool {
    forall|i: int| 0 <= i < d.hunks.len() ==> #[trigger] d.hunks[i] < d.rows.len()
}

pub open spec fn blob_text(b: Blob) -> Seq<char> {
    match b {
        Blob::Text(s) => s@,
        _ => Seq::empty(),
    }
}

pub open spec fn binary_doc() -> DocModel {
    DocModel { rows: Seq::empty(), hunks: Seq::empty(), added: 0, removed: 0, body: Body::Binary }
}

/// The context each hunk gets: `CONTEXT` lines, or the whole file.
pub open spec fn context_of(full_context: bool) -> Option<usize> {
    if full_context {
        None
    } else {
        Some(CONTEXT)
    }
}

/// The document shown for a file whose sides read as `old` and `new`: a
/// binary side shows nothing but that; otherwise the built diff, split into
/// one column in the unified layout.
pub open spec fn shown_doc(old: Blob, new: Blob, full_context: bool, layout: Layout) -> DocModel {
    if old is Binary || new is Binary {
        binary_doc()
    } else {
        let d = diff::build_spec(blob_text(old), blob_text(new), context_of(full_context));
        if layout == Layout::Unified && hunks_on_rows(d) {
            diff::unify_spec(d)
        } else {
            d
        }
    }
}

/// `s` without any occurrence of `p`.
pub open spec fn without(s: Seq<Seq<char>>, p: Seq<char>) -> Seq<Seq<char>>
    decreases s.len(),
{
    if s.len() == 0 {
        Seq::empty()
    } else if s.last() == p {
        without(s.drop_last(), p)
    } else {
        without(s.drop_last(), p).push(s.last())
    }
}

/// At most `RECENT_LIMIT` of the first entries.
pub open spec fn capped(s: Seq<Seq<char>>) -> Seq<Seq<char>> {
    if s.len() <= RECENT_LIMIT {
        s
    } else {
        s.take(RECENT_LIMIT as int)
    }
}

/// The recent-files list after viewing `p`: `p` first, then the others in
/// their order, at most `RECENT_LIMIT` of them.
pub open spec fn recent_spec(old: Seq<Seq<char>>, p: Seq<char>) -> Seq<Seq<char>> {
    capped(seq![p] + without(old, p))
}

/// The rows matching the search query, or none for an empty query.
pub open spec fn found_rows(query: Seq<char>, rows: Seq<RowModel>) -> Seq<usize> {
    if query.len() == 0 {
        Seq::empty()
    } else {
        matching_rows(query, rows)
    }
}

/// A side that could not be read shows as absent.
pub open spec fn side_or_absent(r: Result<Blob, String>, other: Result<Blob, String>) -> Blob {
    match (r, other) {
        (Ok(b), Ok(_)) => b,
        _ => Blob::Absent,
    }
}

/// File `index` shown, its sides read as `old_side` and `new_side`: its
/// rows built, the cursor at the top, the search run again over them, the
/// file made the most recent one and revealed in the tree. A side that
/// could not be read shows as absent, with the (first) error on the status
/// line.
pub open spec fn shown(
    pre: App,
    post: App,
    index: usize,
    old_side: Result<Blob, String>,
    new_side: Result<Blob, String>,
) -> bool {
    &&& post.current == Some(index)
    &&& post.doc matches Some(d) && d@ == shown_doc(
        side_or_absent(old_side, new_side),
        side_or_absent(new_side, old_side),
        pre.full_context,
        pre.layout,
    )
    &&& post.cursor == 0
    &&& post.offset == 0
    &&& post.hscroll == 0
    &&& post.find.query@ == pre.find.query@
    &&& post.find.at == 0
    &&& post.find.matches@ == found_rows(pre.find.query@, post.rows())
    &&& diff::strings_model(post.recent@) == recent_spec(
        diff::strings_model(pre.recent@),
        pre.files@[index as int].path@,
    )
    &&& exists|r: bool| revealed(pre.tree, post.tree, pre.files@[index as int].path@, r, pre.files@)
    &&& post.message == match (old_side, new_side) {
        (Err(m), _) => Some(m),
        (_, Err(m)) => Some(m),
        _ => pre.message,
    }
    &&& post == (App {
        current: post.current,
        doc: post.doc,
        cursor: post.cursor,
        offset: post.offset,
        hscroll: post.hscroll,
        find: post.find,
        recent: post.recent,
        tree: post.tree,
        message: post.message,
        ..pre
    })
}

/// What waited for a file to load, done: landing on a line of the new
/// side, keeping the cursor where it was (clamped) with an optional note,
/// or saying how many files a reload found. Nothing waits afterwards.
pub open spec fn followed_up(pre: App, post: App) -> bool {
    let mid = App { after_load: AfterLoad::Stay, ..pre };
    match pre.after_load {
        AfterLoad::Stay => post == mid,
        AfterLoad::NewLine(line) => landed(mid, post, line),
        AfterLoad::Rebuilt { keep, note } => {
            let last: int = if mid.rows().len() == 0 {
                0
            } else {
                mid.rows().len() - 1
            };
            let c: int = if keep < last {
                keep as int
            } else {
                last
            };
            post == (App {
                cursor: c as usize,
                offset: scroll_spec(c, mid.offset as int, mid.viewport as int, mid.rows().len() as int) as usize,
                message: match note {
                    Some(m) => Some(m),
                    None => mid.message,
                },
                ..mid
            })
        },
        AfterLoad::Reloaded(n) => post == (App { message: post.message, ..mid }) && says(
            post.message,
            reloaded_note_spec(n),
        ),
    }
}

/// The key held back while outside work ran, if any, handled.
pub open spec fn resumed(pre: App, post: App, e: Effect) -> bool {
    match pre.replay {
        None => post == pre && e is Nothing,
        Some(k) => replayed(App { replay: None, ..pre }, post, k, e),
    }
}

impl App {
    fn touch_recent(&mut self, path: &str)
        ensures
            diff::strings_model(final(self).recent@) == recent_spec(diff::strings_model(old(self).recent@), path@),
            *final(self) == (App { recent: final(self).recent, ..*old(self) }),
    {
        let ghost old_m = diff::strings_model(self.recent@);
        let mut out: Vec<String> = Vec::new();
        out.push(owned(path));
        let mut i: usize = 0;
        proof {
            assert(old_m.take(0) =~= Seq::<Seq<char>>::empty());
            assert(diff::strings_model(out@) =~= seq![path@] + without(old_m.take(0), path@));
        }
        while i < self.recent.len()
            invariant
                i <= self.recent@.len(),
                old_m == diff::strings_model(self.recent@),
                diff::strings_model(out@) == capped(seq![path@] + without(old_m.take(i as int), path@)),
            decreases self.recent@.len() - i,
        {
            let ghost full0 = seq![path@] + without(old_m.take(i as int), path@);
            proof {
                assert(old_m.take(i + 1).drop_last() =~= old_m.take(i as int));
                assert(old_m.take(i + 1).last() == old_m[i as int]);
            }
            if !str_eq(self.recent[i].as_str(), path) {
                let ghost full1 = seq![path@] + without(old_m.take(i + 1), path@);
                proof {
                    assert(full1 =~= full0.push(old_m[i as int]));
                }
                if out.len() < RECENT_LIMIT {
                    let ghost before = diff::strings_model(out@);
                    out.push(owned(self.recent[i].as_str()));
                    proof {
                        assert(diff::strings_model(out@) =~= before.push(old_m[i as int]));
                    }
                } else {
                    proof {
                        assert(full1.take(RECENT_LIMIT as int) =~= full0.take(RECENT_LIMIT as int));
                    }
                }
            }
            i = i + 1;
        }
        proof {
            assert(old_m.take(i as int) =~= old_m);
        }
        self.recent = out;
    }

    /// Show file `index`, whose sides read as `old_side` and `new_side`:
    /// build its rows, put the cursor at the top, search it again, make it
    /// the most recent file and reveal it in the tree.
    fn show_file(&mut self, index: usize, old_side: Blob, new_side: Blob)
        requires
            old(self).inv(),
            index < old(self).files@.len(),
        ensures
            final(self).inv(),
            final(self).current == Some(index),
            final(self).doc matches Some(d) && d@ == shown_doc(old_side, new_side, old(self).full_context, old(self).layout),
            final(self).cursor == 0,
            final(self).offset == 0,
            final(self).hscroll == 0,
            final(self).find.query@ == old(self).find.query@,
            final(self).find.at == 0,
            final(self).find.matches@ == found_rows(old(self).find.query@, final(self).rows()),
            diff::strings_model(final(self).recent@) == recent_spec(
                diff::strings_model(old(self).recent@),
                old(self).files@[index as int].path@,
            ),
            exists|r: bool| revealed(old(self).tree, final(self).tree, old(self).files@[index as int].path@, r, old(self).files@),
            *final(self) == (App {
                current: final(self).current,
                doc: final(self).doc,
                cursor: final(self).cursor,
                offset: final(self).offset,
                hscroll: final(self).hscroll,
                find: final(self).find,
                recent: final(self).recent,
                tree: final(self).tree,
                ..*old(self)
            }),
    {
        let path = owned(self.files[index].path.as_str());
        let binary = match (&old_side, &new_side) {
            (Blob::Binary, _) => true,
            (_, Blob::Binary) => true,
            _ => false,
        };
        let doc = if binary {
            let d = Document::binary();
            proof {
                assert(d@.rows =~= binary_doc().rows);
                assert(d@.hunks =~= binary_doc().hunks);
                assert(d@ == binary_doc());
            }
            d
        } else {
            let context = if self.full_context {
                None
            } else {
                Some(CONTEXT)
            };
            let built = diff::build(old_side.text(), new_side.text(), context);
            match self.layout {
                Layout::Split => built,
                Layout::Unified => {
                    if hunks_within(&built) {
                        diff::unify(&built)
                    } else {
                        built
                    }
                },
            }
        };
        self.current = Some(index);
        self.doc = Some(doc);
        self.cursor = 0;
        self.offset = 0;
        self.hscroll = 0;
        self.refresh_find();
        self.touch_recent(path.as_str());
        let r = self.tree.reveal_path(path.as_str(), self.files.as_slice());
    }

    /// The file asked for with `Effect::Load(index)` arrived: its two sides,
    /// or the error that reading each gave. A side that could not be read
    /// shows as absent, with the (first) error on the status line; an index
    /// that names no file shows nothing new. Then whatever waited for the
    /// file happens, and a key held back while it loaded is handled.
    pub fn loaded(&mut self, index: usize, old_side: Result<Blob, String>, new_side: Result<Blob, String>) -> (e: Effect)
        requires
            old(self).inv(),
        ensures
            final(self).inv(),
            final(self).replay is None,
            index >= old(self).files@.len() ==> exists|m: App| #[trigger] followed_up(*old(self), m) && resumed(m, *final(self), e),
            index < old(self).files@.len() ==> exists|s: App, m: App| {
                &&& shown(*old(self), s, index, old_side, new_side)
                &&& #[trigger] followed_up(s, m)
                &&& resumed(m, *final(self), e)
            },
    {
        let ghost pre = *self;
        let ghost os = old_side;
        let ghost ns = new_side;
        if index < self.files.len() {
            let (o, n) = match (old_side, new_side) {
                (Ok(o), Ok(n)) => (o, n),
                (Err(e), _) => {
                    self.message = Some(e);
                    (Blob::Absent, Blob::Absent)
                },
                (_, Err(e)) => {
                    self.message = Some(e);
                    (Blob::Absent, Blob::Absent)
                },
            };
            self.show_file(index, o, n);
            proof {
                assert(shown(pre, *self, index, os, ns));
            }
        }
        self.finish_load()
    }

    /// Whatever waited for a file to load, then a held-back key.
    fn finish_load(&mut self) -> (e: Effect)
        requires
            old(self).inv(),
        ensures
            final(self).inv(),
            final(self).replay is None,
            exists|m: App| #[trigger] followed_up(*old(self), m) && resumed(m, *final(self), e),
    {
        let mut after = AfterLoad::Stay;
        std::mem::swap(&mut after, &mut self.after_load);
        match after {
            AfterLoad::Stay => {},
            AfterLoad::NewLine(line) => self.goto_new_line(line),
            AfterLoad::Rebuilt { keep, note } => {
                let len = self.doc_len();
                let last = if len == 0 {
                    0
                } else {
                    len - 1
                };
                self.cursor = if keep < last {
                    keep
                } else {
                    last
                };
                self.scroll_into_view();
                if let Some(m) = note {
                    self.message = Some(m);
                }
            },
            AfterLoad::Reloaded(n) => self.message = Some(reloaded_note(n)),
        }
        let ghost m = *self;
        proof {
            assert(followed_up(*old(self), m));
        }
        let e = self.resume();
        proof {
            assert(resumed(m, *self, e));
        }
        e
    }
}

/// Whether every hunk marker of `doc` lies on one of its rows.
fn hunks_within(doc: &Document) -> (r: bool)
    ensures
        r == hunks_on_rows(doc@),
{
    let mut i: usize = 0;
    while i < doc.hunks.len()
        invariant
            i <= doc.hunks@.len(),
            forall|k: int| 0 <= k < i ==> #[trigger] doc.hunks@[k] < doc.rows@.len(),
        decreases doc.hunks@.len() - i,
    {
        if doc.hunks[i] >= doc.rows.len() {
            proof {
                assert(!(doc@.hunks[i as int] < doc@.rows.len()));
            }
            return false;
        }
        i = i + 1;
    }
    true
}

pub open spec fn reloaded_note_spec(n: usize) -> Seq<char> {
    "reloaded -- "@ + crate::text::decimal_spec(n as nat) + " changed files"@
}

/// `reloaded -- N changed files`.
fn reloaded_note(n: usize) -> (r: String)
    ensures
        r@ == reloaded_note_spec(n),
{
    let mut out: Vec<char> = Vec::new();
    push_str(&mut out, "reloaded -- ");
    push_decimal(&mut out, n);
    push_str(&mut out, " changed files");
    string_of(&out)
}


// ------------------------------------------------------------ navigation

/// Index of the first of `files` from `i` on with this path.
pub open spec fn path_index(files: Seq<FileEntry>, p: Seq<char>, i: int) -> Option<int>
    decreases files.len() - i,
{
    if i < 0 || i >= files.len() {
        None
    } else if files[i].path@ == p {
        Some(i)
    } else {
        path_index(files, p, i + 1)
    }
}

/// The first row, from `i` on, that shows line `line` of the new side.
pub open spec fn row_of_line(rows: Seq<RowModel>, line: usize, i: int) -> Option<int>
    decreases rows.len() - i,
{
    if i < 0 || i >= rows.len() {
        None
    } else if rows[i].new matches Some(c) && c.number == line {
        Some(i)
    } else {
        row_of_line(rows, line, i + 1)
    }
}

/// The last of the first `j` rows that shows a new-side line before `line`.
pub open spec fn row_before_line(rows: Seq<RowModel>, line: usize, j: int) -> Option<int>
    decreases j,
{
    if j <= 0 || j > rows.len() {
        None
    } else if rows[j - 1].new matches Some(c) && c.number < line {
        Some(j - 1)
    } else {
        row_before_line(rows, line, j - 1)
    }
}

pub open spec fn outside_note(line: usize) -> Seq<char> {
    "line "@ + crate::text::decimal_spec(line as nat) + " is outside the diff -- press za to show the whole file"@
}

pub open spec fn gone_note(path: Seq<char>) -> Seq<char> {
    path + " is no longer in the diff"@
}

fn outside_message(line: usize) -> (r: String)
    ensures
        r@ == outside_note(line),
{
    let mut out: Vec<char> = Vec::new();
    push_str(&mut out, "line ");
    push_decimal(&mut out, line);
    push_str(&mut out, " is outside the diff -- press za to show the whole file");
    string_of(&out)
}

fn gone_message(path: &str) -> (r: String)
    ensures
        r@ == gone_note(path@),
{
    let mut out: Vec<char> = Vec::new();
    push_str(&mut out, path);
    push_str(&mut out, " is no longer in the diff");
    string_of(&out)
}

/// Index of the first changed file with this path.
fn position(files: &Vec<FileEntry>, path: &str) -> (r: Option<usize>)
    ensures
        r matches Some(i) ==> path_index(files@, path@, 0) == Some(i as int),
        r is None ==> path_index(files@, path@, 0) is None,
{
    let mut i: usize = 0;
    while i < files.len()
        invariant
            i <= files@.len(),
            path_index(files@, path@, 0) == path_index(files@, path@, i as int),
        decreases files@.len() - i,
    {
        if str_eq(files[i].path.as_str(), path) {
            return Some(i);
        }
        i = i + 1;
    }
    None
}

/// The first row showing line `line` of the new side.
fn line_row(rows: &Vec<Row>, line: usize) -> (r: Option<usize>)
    ensures
        r matches Some(k) ==> row_of_line(rows_model(rows@), line, 0) == Some(k as int),
        r is None ==> row_of_line(rows_model(rows@), line, 0) is None,
{
    let ghost m = rows_model(rows@);
    let mut i: usize = 0;
    while i < rows.len()
        invariant
            m == rows_model(rows@),
            i <= rows@.len(),
            row_of_line(m, line, 0) == row_of_line(m, line, i as int),
        decreases rows@.len() - i,
    {
        let hit = match &rows[i].new {
            Some(c) => c.number == line,
            None => false,
        };
        proof {
            assert(m[i as int] == rows@[i as int]@);
        }
        if hit {
            return Some(i);
        }
        i = i + 1;
    }
    None
}

/// The last row showing a new-side line before `line`.
fn row_before(rows: &Vec<Row>, line: usize) -> (r: Option<usize>)
    ensures
        r matches Some(k) ==> row_before_line(rows_model(rows@), line, rows@.len() as int) == Some(k as int),
        r is None ==> row_before_line(rows_model(rows@), line, rows@.len() as int) is None,
{
    let ghost m = rows_model(rows@);
    let mut j: usize = rows.len();
    while j > 0
        invariant
            m == rows_model(rows@),
            j <= rows@.len(),
            row_before_line(m, line, rows@.len() as int) == row_before_line(m, line, j as int),
        decreases j,
    {
        let below = match &rows[j - 1].new {
            Some(c) => c.number < line,
            None => false,
        };
        proof {
            assert(m[j - 1] == rows@[j - 1]@);
        }
        if below {
            return Some(j - 1);
        }
        j = j - 1;
    }
    None
}

pub open spec fn not_found_note(query: Seq<char>) -> Seq<char> {
    "pattern not found: "@ + query
}

pub open spec fn match_note(k: nat, n: nat) -> Seq<char> {
    "match "@ + crate::text::decimal_spec(k) + "/"@ + crate::text::decimal_spec(n)
}

/// `open` `k` `mid` `n` `close`.
fn counter(open: &str, k: usize, mid: &str, n: usize, close: &str) -> (r: String)
    ensures
        r@ == open@ + crate::text::decimal_spec(k as nat) + mid@ + crate::text::decimal_spec(n as nat) + close@,
{
    let mut out: Vec<char> = Vec::new();
    push_str(&mut out, open);
    push_decimal(&mut out, k);
    push_str(&mut out, mid);
    push_decimal(&mut out, n);
    push_str(&mut out, close);
    string_of(&out)
}

/// `a` followed by `b`.
fn joined_str(a: &str, b: &str) -> (r: String)
    ensures
        r@ == a@ + b@,
{
    let mut out: Vec<char> = Vec::new();
    push_str(&mut out, a);
    push_str(&mut out, b);
    string_of(&out)
}

impl App {
    /// Ask for file `index`, and what to do once it is on screen.
    fn request(&mut self, index: usize, after: AfterLoad) -> (e: Effect)
        ensures
            e == Effect::Load(index),
            *final(self) == (App { after_load: after, ..*old(self) }),
    {
        self.after_load = after;
        Effect::Load(index)
    }

    /// Put the cursor on the row holding line `line` of the new side.
    ///
    /// With context folded the line may not be on screen at all; say so
    /// rather than silently landing somewhere else.
    fn goto_new_line(&mut self, line: usize)
        requires
            old(self).inv(),
        ensures
            final(self).inv(),
            landed(*old(self), *final(self), line),
    {
        let exact = match &self.doc {
            Some(d) => line_row(&d.rows, line),
            None => {
                return;
            },
        };
        match exact {
            Some(r) => {
                self.cursor = r;
                self.scroll_into_view();
            },
            None => {
                // Land on the nearest row that precedes it, so the
                // neighbourhood is at least right.
                let near = match &self.doc {
                    Some(d) => row_before(&d.rows, line),
                    None => None,
                };
                self.cursor = match near {
                    Some(k) => k,
                    None => 0,
                };
                self.scroll_into_view();
                self.message = Some(outside_message(line));
            },
        }
    }

    /// `n` / `N`: the next or previous search match, wrapping at the ends.
    #[verifier::rlimit(50)]
    fn jump_to_match(&mut self, forward: bool, from_cursor: bool)
        requires
            old(self).inv(),
        ensures
            final(self).inv(),
            jumped(*old(self), *final(self), forward, from_cursor),
    {
        if self.find.matches.len() == 0 {
            if !self.find.query.as_str().is_empty() {
                let mut out: Vec<char> = Vec::new();
                push_str(&mut out, "pattern not found: ");
                push_str(&mut out, self.find.query.as_str());
                self.message = Some(string_of(&out));
            }
            return;
        }
        let from = if from_cursor {
            if self.cursor >= 1 {
                self.cursor - 1
            } else {
                0
            }
        } else {
            self.cursor
        };
        let m = &self.find.matches;
        let next = if forward {
            let mut i: usize = 0;
            while i < m.len() && m[i] <= from
                invariant
                    i <= m@.len(),
                    diff::first_after(m@, from, i as int) == diff::first_after(m@, from, 0),
                decreases m@.len() - i,
            {
                i = i + 1;
            }
            if i < m.len() {
                i
            } else {
                0
            }
        } else {
            let mut j: usize = m.len();
            while j > 0 && m[j - 1] >= self.cursor
                invariant
                    j <= m@.len(),
                    diff::last_before(m@, self.cursor, j as int) == diff::last_before(m@, self.cursor, m@.len() as int),
                decreases j,
            {
                j = j - 1;
            }
            if j > 0 {
                j - 1
            } else {
                m.len() - 1
            }
        };
        let total = m.len();
        proof {
            reveal_strlit("");
        }
        self.find.at = next;
        self.cursor = self.find.matches[next];
        self.scroll_into_view();
        self.message = Some(counter("match ", next + 1, "/", total, ""));
    }

    /// Act on a picker or quickfix selection.
    fn goto(&mut self, target: &Target) -> (e: Effect)
        requires
            old(self).inv(),
        ensures
            final(self).inv(),
            went(*old(self), *final(self), target@, e),
    {
        match target {
            Target::File(path) => match position(&self.files, path.as_str()) {
                Some(i) => {
                    self.focus = Context::Diff;
                    self.request(i, AfterLoad::Stay)
                },
                None => {
                    self.message = Some(gone_message(path.as_str()));
                    Effect::Nothing
                },
            },
            Target::Location { path, line } => match position(&self.files, path.as_str()) {
                Some(i) => {
                    self.focus = Context::Diff;
                    if self.current == Some(i) {
                        self.goto_new_line(*line);
                        Effect::Nothing
                    } else {
                        self.request(i, AfterLoad::NewLine(*line))
                    }
                },
                None => {
                    self.message = Some(gone_message(path.as_str()));
                    Effect::Nothing
                },
            },
            Target::Row(row) => {
                self.focus = Context::Diff;
                let len = self.doc_len();
                let last = if len == 0 {
                    0
                } else {
                    len - 1
                };
                self.cursor = if *row < last {
                    *row
                } else {
                    last
                };
                self.scroll_into_view();
                Effect::Nothing
            },
        }
    }

    /// `]g` / `[g`: the next or previous changed file in the tree.
    fn step_file(&mut self, forward: bool) -> (e: Effect)
        requires
            old(self).inv(),
        ensures
            final(self).inv(),
            file_stepped(*old(self), *final(self), forward, e),
    {
        match self.tree.step_file(forward) {
            Some(i) => self.request(i, AfterLoad::Stay),
            None => {
                self.message = Some(owned("no changed files"));
                Effect::Nothing
            },
        }
    }

    /// `]q` / `[q`: the next or previous quickfix entry, wrapping around.
    fn step_quickfix(&mut self, forward: bool) -> (e: Effect)
        requires
            old(self).inv(),
        ensures
            final(self).inv(),
            quickfix_stepped(*old(self), *final(self), forward, e),
    {
        if self.quickfix.len() == 0 {
            self.message = Some(owned("quickfix list is empty"));
            return Effect::Nothing;
        }
        let len = self.quickfix.len();
        let m = self.quickfix_at % len;
        let at = if forward {
            if m == len - 1 {
                0
            } else {
                m + 1
            }
        } else {
            if m == 0 {
                len - 1
            } else {
                m - 1
            }
        };
        self.quickfix_at = at;
        let target = self.quickfix[at].clone();
        self.message = Some(counter("(", at + 1, "/", len, ")"));
        self.goto(&target)
    }
}

// ---------------------------------------------------------------- pickers

pub open spec fn file_candidates_spec(files: Seq<FileEntry>) -> Seq<CandidateModel> {
    Seq::new(
        files.len(),
        |i: int|
            CandidateModel {
                display: files[i].path@,
                detail: crate::git::badge_spec(files[i].status),
                target: TargetModel::File(files[i].path@),
            },
    )
}

pub open spec fn buffer_candidates_spec(recent: Seq<Seq<char>>) -> Seq<CandidateModel> {
    Seq::new(
        recent.len(),
        |i: int| CandidateModel { display: recent[i], detail: Seq::empty(), target: TargetModel::File(recent[i]) },
    )
}

/// One candidate per row with text, for the line picker.
pub open spec fn line_candidates_spec(rows: Seq<RowModel>) -> Seq<CandidateModel>
    decreases rows.len(),
{
    if rows.len() == 0 {
        Seq::empty()
    } else {
        let before = line_candidates_spec(rows.drop_last());
        let t = diff::search_text_spec(rows.last());
        if trim_spec(t).len() > 0 {
            before.push(
                CandidateModel {
                    display: crate::text::trim_end_spec(t),
                    detail: crate::text::decimal_spec(diff::editor_line_spec(rows.last())),
                    target: TargetModel::Row((rows.len() - 1) as nat),
                },
            )
        } else {
            before
        }
    }
}

/// A grep hit as a picker entry: its text, `path:line`, and its location.
pub open spec fn hit_candidate(h: HitModel) -> CandidateModel {
    CandidateModel {
        display: h.text,
        detail: h.path + ":"@ + crate::text::decimal_spec(h.line),
        target: TargetModel::Location { path: h.path, line: h.line },
    }
}

impl App {
    fn files_title(&self) -> (r: String)
        ensures
            r@ == "Changed files ("@ + crate::text::decimal_spec(self.files@.len()) + ")"@,
    {
        let mut out: Vec<char> = Vec::new();
        push_str(&mut out, "Changed files (");
        push_decimal(&mut out, self.files.len());
        push_str(&mut out, ")");
        string_of(&out)
    }

    fn grep_title(&self) -> (r: &'static str)
        ensures
            r@ == (if (self.spec@ is Worktree || self.spec@ is Rev) && self.ripgrep {
                "Live grep (ripgrep, changed files)"@
            } else {
                "Live grep (in diff contents)"@
            }),
    {
        if search::uses_ripgrep(&self.spec, self.ripgrep) {
            "Live grep (ripgrep, changed files)"
        } else {
            "Live grep (in diff contents)"
        }
    }

    fn file_candidates(&self) -> (r: Vec<Candidate>)
        ensures
            candidates_model(r@) == file_candidates_spec(self.files@),
    {
        let mut out: Vec<Candidate> = Vec::new();
        let mut i: usize = 0;
        while i < self.files.len()
            invariant
                i <= self.files@.len(),
                candidates_model(out@) == file_candidates_spec(self.files@).take(i as int),
            decreases self.files@.len() - i,
        {
            let f = &self.files[i];
            let ghost before = candidates_model(out@);
            let c = Candidate {
                display: owned(f.path.as_str()),
                detail: owned(f.status.badge()),
                target: Target::File(owned(f.path.as_str())),
            };
            proof {
                assert(c@ == file_candidates_spec(self.files@)[i as int]);
            }
            out.push(c);
            proof {
                assert(candidates_model(out@) =~= before.push(c@));
                assert(candidates_model(out@) =~= file_candidates_spec(self.files@).take(i + 1));
            }
            i = i + 1;
        }
        proof {
            assert(file_candidates_spec(self.files@).take(i as int) =~= file_candidates_spec(self.files@));
        }
        out
    }

    fn buffer_candidates(&self) -> (r: Vec<Candidate>)
        ensures
            candidates_model(r@) == buffer_candidates_spec(diff::strings_model(self.recent@)),
    {
        let ghost want = buffer_candidates_spec(diff::strings_model(self.recent@));
        let mut out: Vec<Candidate> = Vec::new();
        let mut i: usize = 0;
        while i < self.recent.len()
            invariant
                i <= self.recent@.len(),
                want == buffer_candidates_spec(diff::strings_model(self.recent@)),
                candidates_model(out@) == want.take(i as int),
            decreases self.recent@.len() - i,
        {
            let p = self.recent[i].as_str();
            let ghost before = candidates_model(out@);
            let c = Candidate { display: owned(p), detail: String::new(), target: Target::File(owned(p)) };
            proof {
                assert(c@.detail =~= Seq::<char>::empty());
                assert(c@ == want[i as int]);
            }
            out.push(c);
            proof {
                assert(candidates_model(out@) =~= before.push(c@));
                assert(candidates_model(out@) =~= want.take(i + 1));
            }
            i = i + 1;
        }
        proof {
            assert(want.take(i as int) =~= want);
        }
        out
    }

    fn line_candidates(&self) -> (r: Vec<Candidate>)
        ensures
            candidates_model(r@) == line_candidates_spec(self.rows()),
    {
        let doc = match &self.doc {
            Some(d) => d,
            None => {
                return Vec::new();
            },
        };
        let ghost rows = rows_model(doc.rows@);
        let mut out: Vec<Candidate> = Vec::new();
        let mut i: usize = 0;
        proof {
            assert(rows.take(0) =~= Seq::<RowModel>::empty());
        }
        while i < doc.rows.len()
            invariant
                rows == rows_model(doc.rows@),
                i <= doc.rows@.len(),
                candidates_model(out@) == line_candidates_spec(rows.take(i as int)),
            decreases doc.rows@.len() - i,
        {
            proof {
                assert(rows.take(i + 1).drop_last() =~= rows.take(i as int));
                assert(rows.take(i + 1).last() == rows[i as int]);
            }
            let r = &doc.rows[i];
            let t = r.search_text();
            if !trim(t).is_empty() {
                let ghost before = candidates_model(out@);
                out.push(
                    Candidate {
                        display: owned(trim_end(t)),
                        detail: decimal(r.editor_line()),
                        target: Target::Row(i),
                    },
                );
                proof {
                    assert(candidates_model(out@) =~= before.push(candidates_model(out@).last()));
                }
            }
            i = i + 1;
        }
        proof {
            assert(rows.take(i as int) =~= rows);
        }
        out
    }

    /// Open a picker of this kind, its prompt filled in when one is given.
    fn open_picker(&mut self, kind: Kind, prompt: Option<String>) -> (e: Effect)
        requires
            old(self).inv(),
        ensures
            final(self).inv(),
            picker_opened(
                *old(self),
                *final(self),
                kind,
                match prompt {
                    Some(t) => Some(t@),
                    None => None,
                },
                e,
            ),
    {
        let ghost pv = match &prompt {
            Some(t) => t@,
            None => Seq::<char>::empty(),
        };
        let picker = match kind {
            Kind::Files => {
                let title = self.files_title();
                Picker::new(kind, title.as_str(), self.file_candidates())
            },
            Kind::Buffers => {
                let source = self.buffer_candidates();
                proof {
                    assert(candidates_model(source@).len() == source@.len());
                    assert(diff::strings_model(self.recent@).len() == self.recent@.len());
                }
                if source.len() == 0 {
                    self.message = Some(owned("no files opened yet"));
                    return Effect::Nothing;
                }
                Picker::new(kind, "Recent", source)
            },
            Kind::Lines => {
                let source = self.line_candidates();
                proof {
                    assert(candidates_model(source@).len() == source@.len());
                }
                if source.len() == 0 {
                    self.message = Some(owned("nothing to search in this file"));
                    return Effect::Nothing;
                }
                Picker::new(kind, "Lines in diff", source)
            },
            Kind::Grep => Picker::new(kind, self.grep_title(), Vec::new()),
        };
        let picker = match prompt {
            Some(p) => picker.with_prompt(p.as_str()),
            None => picker,
        };
        let ghost q = picker;
        proof {
            assert(q.sources() == source_for(*old(self), kind));
            assert(fresh_picker(q, kind, title_for(*old(self), kind), source_for(*old(self), kind), pv));
        }
        self.overlay = Some(Overlay::Picker(picker));
        let e = self.refresh_live_picker();
        proof {
            assert(live_refreshed(with_picker(*old(self), q), *self, e));
        }
        e
    }

    /// Ask the grep backend again after the prompt changed: a live picker
    /// with a prompt of two or more characters sends it out as
    /// `Effect::Grep`; a shorter one matches nearly everything, so it shows
    /// nothing until there is a real query.
    fn refresh_live_picker(&mut self) -> (e: Effect)
        requires
            old(self).inv(),
        ensures
            final(self).inv(),
            live_refreshed(*old(self), *final(self), e),
    {
        let ov = self.overlay.take();
        match ov {
            Some(Overlay::Picker(mut p)) => {
                if !p.kind().is_live() {
                    self.overlay = Some(Overlay::Picker(p));
                    return Effect::Nothing;
                }
                let query = owned(p.prompt_str());
                // One character matches nearly everything; wait for a real query.
                if chars_of(query.as_str()).len() < 2 {
                    p.set_items(Vec::new());
                    proof {
                        assert(p.item_list() =~= Seq::<ItemModel>::empty());
                    }
                    self.overlay = Some(Overlay::Picker(p));
                    Effect::Nothing
                } else {
                    self.overlay = Some(Overlay::Picker(p));
                    Effect::Grep(query)
                }
            },
            other => {
                self.overlay = other;
                Effect::Nothing
            },
        }
    }

    /// The grep asked for with `Effect::Grep` came back: its hits become
    /// the entries of the live picker, when that is still open. Then a key
    /// held back meanwhile is handled.
    pub fn grep_done(&mut self, hits: Vec<Hit>) -> (e: Effect)
        requires
            old(self).inv(),
        ensures
            final(self).inv(),
            final(self).replay is None,
            hits_shown(*old(self), *final(self), hits@, e),
    {
        let ghost mut listed: Option<Picker> = None;
        let ov = self.overlay.take();
        match ov {
            Some(Overlay::Picker(mut p)) => {
                if p.kind().is_live() {
                    let mut candidates: Vec<Candidate> = Vec::new();
                    let mut i: usize = 0;
                    while i < hits.len()
                        invariant
                            i <= hits@.len(),
                            candidates@.len() == i,
                            forall|k: int| 0 <= k < i ==> (#[trigger] candidates@[k])@ == hit_candidate(hits@[k]@),
                        decreases hits@.len() - i,
                    {
                        let h = &hits[i];
                        let mut detail: Vec<char> = Vec::new();
                        push_str(&mut detail, h.path.as_str());
                        push_str(&mut detail, ":");
                        push_decimal(&mut detail, h.line);
                        candidates.push(
                            Candidate {
                                display: owned(h.text.as_str()),
                                detail: string_of(&detail),
                                target: Target::Location { path: owned(h.path.as_str()), line: h.line },
                            },
                        );
                        i = i + 1;
                    }
                    p.set_items(candidates);
                    proof {
                        assert(p.item_list() =~= Seq::new(
                            hits@.len(),
                            |i: int| ItemModel { candidate: hit_candidate(hits@[i]@), indices: Seq::empty() },
                        ));
                        listed = Some(p);
                    }
                }
                self.overlay = Some(Overlay::Picker(p));
            },
            other => {
                self.overlay = other;
            },
        }
        let ghost s0 = *self;
        let e = self.resume();
        proof {
            assert(resumed(s0, *self, e));
            if let Some(q) = listed {
                assert(s0 == with_picker(*old(self), q));
                assert(resumed(with_picker(*old(self), q), *self, e));
            }
        }
        e
    }

    fn remember_picker(&mut self, p: &Picker)
        ensures
            final(self).last_picker matches Some(l) && l.kind == p.kind_of() && l.prompt@ == p.prompt_text(),
            *final(self) == (App { last_picker: final(self).last_picker, ..*old(self) }),
    {
        self.last_picker = Some(LastPicker { kind: p.kind(), prompt: owned(p.prompt_str()) });
    }
}



// ------------------------------------------------------------- key routing

/// Where `<C-w>` has cut a prompt to.
fn pop_char(s: &str) -> (r: String)
    ensures
        r@ == (if s@.len() == 0 { s@ } else { s@.drop_last() }),
{
    let mut cs = chars_of(s);
    if cs.len() > 0 {
        cs.pop();
    }
    string_of(&cs)
}

fn push_char(s: &str, c: char) -> (r: String)
    ensures
        r@ == s@.push(c),
{
    let mut cs = chars_of(s);
    cs.push(c);
    string_of(&cs)
}

/// The state a key press acts on: the message cleared, the pending
/// sequence as the key left it.
pub open spec fn keyed(pre: App, pending: Vec<Key>) -> App {
    App { message: None, pending: pending, ..pre }
}

/// A key for the focused pane's bindings: it extends the pending sequence;
/// a binding it completes fires; when a complete binding is followed by a
/// key that starts another, the action runs and the key is then handled
/// afresh -- at once when the action needed no outside work, after it
/// otherwise, and not at all when that work is the editor.
pub open spec fn pane_keyed(pre: App, post: App, key: Key, e: Effect) -> bool {
    let (p, res) = keys::resolve_spec(pre.keymap.table(pre.focus), pre.pending@, key);
    match res {
        Resolved::Action(a) => post.pending@ == p && acted(App { pending: post.pending, ..pre }, post, a, e),
        Resolved::ActionThenReplay(a, k) => exists|s: App, e1: Effect| {
            &&& s.pending@ == p
            &&& #[trigger] acted(keyed(pre, s.pending), s, a, e1)
            &&& match e1 {
                Effect::Nothing => replayed(s, post, k, e),
                Effect::OpenEditor { .. } => post == s && e == e1,
                _ => post == (App { replay: Some(k), ..s }) && e == e1,
            }
        },
        _ => post.pending@ == p && post == (App { pending: post.pending, ..pre }) && e is Nothing,
    }
}

/// A key handled afresh: it extends the pending sequence of the focused
/// pane's bindings, and a binding it completes fires.
pub open spec fn replayed(pre: App, post: App, k: Key, e: Effect) -> bool {
    let (p, res) = keys::resolve_spec(pre.keymap.table(pre.focus), pre.pending@, k);
    &&& post.pending@ == p
    &&& match res {
        Resolved::Action(a) => acted(App { pending: post.pending, ..pre }, post, a, e),
        Resolved::ActionThenReplay(a, _) => acted(App { pending: post.pending, ..pre }, post, a, e),
        _ => post == (App { pending: post.pending, ..pre }) && e is Nothing,
    }
}

impl App {
    /// A key held back while outside work ran, handled now: a complete
    /// binding it finishes fires.
    pub fn resume(&mut self) -> (e: Effect)
        requires
            old(self).inv(),
        ensures
            final(self).inv(),
            final(self).replay is None,
            old(self).replay is None ==> e is Nothing && *final(self) == *old(self),
            old(self).replay matches Some(k) ==> replayed(App { replay: None, ..*old(self) }, *final(self), k, e),
    {
        match self.replay {
            Some(k) => {
                self.replay = None;
                self.replay_key(k)
            },
            None => Effect::Nothing,
        }
    }

    /// The key that broke a sequence starts a fresh one.
    fn replay_key(&mut self, key: Key) -> (e: Effect)
        requires
            old(self).inv(),
            old(self).replay is None,
        ensures
            final(self).inv(),
            final(self).replay is None,
            replayed(*old(self), *final(self), key, e),
    {
        let ctx = self.focus;
        match keys::resolve(&self.keymap, ctx, &mut self.pending, key) {
            Resolved::Action(a) => self.act(a),
            Resolved::ActionThenReplay(a, _) => self.act(a),
            _ => Effect::Nothing,
        }
    }

    /// A key press. Overlays take keys first; otherwise the key extends the
    /// pending sequence of the focused pane's bindings. When a finished
    /// binding is followed by a key that starts another, the action runs
    /// and then the key is handled afresh -- after the outside work the
    /// action asked for, if any, and not at all when that work is the
    /// editor.
    #[verifier::rlimit(100)]
    #[verifier::spinoff_prover]
    pub fn on_key(&mut self, key: Key) -> (e: Effect)
        requires
            old(self).inv(),
            old(self).replay is None,
        ensures
            final(self).inv(),
            final(self).replay is Some ==> e is Load || e is Reload || e is Yank || e is Grep,
            match old(self).overlay {
                Some(Overlay::Picker(p)) => picker_keyed(keyed(*old(self), old(self).pending), *final(self), p, key, e),
                Some(Overlay::Prompt(p)) => prompt_keyed(keyed(*old(self), old(self).pending), *final(self), p, key, e),
                Some(Overlay::Help { scroll }) => help_keyed(keyed(*old(self), old(self).pending), *final(self), scroll, key, e),
                None => true,
            },
            old(self).overlay is None ==> pane_keyed(keyed(*old(self), old(self).pending), *final(self), key, e),
    {
        self.message = None;
        proof {
            assert(*self == keyed(*old(self), old(self).pending));
        }
        match &self.overlay {
            Some(Overlay::Picker(_)) => {
                return self.picker_key(key);
            },
            Some(Overlay::Prompt(_)) => {
                return self.prompt_key(key);
            },
            Some(Overlay::Help { .. }) => {
                return self.help_key(key);
            },
            None => {},
        }
        self.pane_key(key)
    }

    /// A key for the focused pane's bindings.
    #[verifier::rlimit(50)]
    fn pane_key(&mut self, key: Key) -> (e: Effect)
        requires
            old(self).inv(),
            old(self).replay is None,
            old(self).message is None,
        ensures
            final(self).inv(),
            final(self).replay is Some ==> e is Load || e is Reload || e is Yank || e is Grep,
            pane_keyed(*old(self), *final(self), key, e),
    {
        let ctx = self.focus;
        match keys::resolve(&self.keymap, ctx, &mut self.pending, key) {
            Resolved::Action(a) => self.act(a),
            Resolved::ActionThenReplay(a, replay) => {
                let ghost before = *self;
                let effect = self.act(a);
                let ghost s = *self;
                proof {
                    assert(before == keyed(*old(self), s.pending));
                    assert(acted(keyed(*old(self), s.pending), s, a, effect));
                }
                match effect {
                    Effect::Nothing => self.replay_key(replay),
                    Effect::OpenEditor { .. } => effect,
                    _ => {
                        self.replay = Some(replay);
                        effect
                    },
                }
            },
            _ => Effect::Nothing,
        }
    }

    /// Nothing followed a partial sequence before the timeout expired, so
    /// settle for the longest complete binding it contains -- nvim's
    /// `timeoutlen` behaviour, which is what lets `<Space>` toggle a tree
    /// node.
    pub fn flush_pending(&mut self) -> (e: Effect)
        requires
            old(self).inv(),
            old(self).replay is None,
        ensures
            final(self).inv(),
            final(self).replay is None,
            final(self).pending@.len() == 0,
            match keys::longest_from(old(self).keymap.table(old(self).focus), old(self).pending@, old(self).pending@.len() as int) {
                None => e is Nothing && *final(self) == (App { pending: final(self).pending, ..*old(self) }),
                Some(a) => acted(App { pending: final(self).pending, ..*old(self) }, *final(self), a, e),
            },
    {
        let found = keys::longest_complete(&self.keymap, self.focus, self.pending.as_slice());
        self.pending.clear();
        match found {
            Some(action) => self.act(action),
            None => Effect::Nothing,
        }
    }

    fn help_key(&mut self, key: Key) -> (e: Effect)
        requires
            old(self).inv(),
        ensures
            final(self).inv(),
            match old(self).overlay {
                Some(Overlay::Help { scroll }) => help_keyed(*old(self), *final(self), scroll, key, e),
                _ => e is Nothing && *final(self) == *old(self),
            },
    {
        match self.overlay {
            Some(Overlay::Help { scroll }) => {
                match key.code {
                    KeyCode::Char('j') | KeyCode::Down => {
                        self.overlay = Some(Overlay::Help { scroll: scroll.saturating_add(1) });
                    },
                    KeyCode::Char('k') | KeyCode::Up => {
                        self.overlay = Some(Overlay::Help { scroll: scroll.saturating_sub(1) });
                    },
                    KeyCode::Char('g') => {
                        self.overlay = Some(Overlay::Help { scroll: 0 });
                    },
                    _ => {
                        self.overlay = None;
                    },
                }
            },
            _ => {},
        }
        Effect::Nothing
    }

    fn prompt_key(&mut self, key: Key) -> (e: Effect)
        requires
            old(self).inv(),
        ensures
            final(self).inv(),
            match old(self).overlay {
                Some(Overlay::Prompt(p)) => prompt_keyed(*old(self), *final(self), p, key, e),
                _ => e is Nothing && *final(self) == *old(self),
            },
    {
        proof {
            reveal_strlit("");
            assert(""@ =~= Seq::<char>::empty());
        }
        let ctrl = key.mods & CONTROL != 0;
        let ov = self.overlay.take();
        let mut prompt = match ov {
            Some(Overlay::Prompt(p)) => p,
            other => {
                self.overlay = other;
                return Effect::Nothing;
            },
        };
        match key.code {
            KeyCode::Esc => {
                if prompt.kind == PromptKind::TreeFilter {
                    self.tree.set_filter("", &self.files);
                }
                return Effect::Nothing;
            },
            KeyCode::Char('c') if ctrl => {
                if prompt.kind == PromptKind::TreeFilter {
                    self.tree.set_filter("", &self.files);
                }
                return Effect::Nothing;
            },
            KeyCode::Enter => {
                if prompt.kind == PromptKind::Search {
                    self.find.query = prompt.input;
                    self.refresh_find();
                    self.jump_to_match(true, true);
                }
                return Effect::Nothing;
            },
            KeyCode::Backspace => {
                prompt.input = pop_char(prompt.input.as_str());
                if prompt.kind == PromptKind::TreeFilter {
                    self.tree.set_filter(prompt.input.as_str(), &self.files);
                }
            },
            KeyCode::Char('u') if ctrl => {
                prompt.input = String::new();
                if prompt.kind == PromptKind::TreeFilter {
                    self.tree.set_filter("", &self.files);
                }
            },
            KeyCode::Char(c) if !ctrl => {
                prompt.input = push_char(prompt.input.as_str(), c);
                if prompt.kind == PromptKind::TreeFilter {
                    self.tree.set_filter(prompt.input.as_str(), &self.files);
                }
            },
            _ => {},
        }
        self.overlay = Some(Overlay::Prompt(prompt));
        Effect::Nothing
    }

    fn picker_key(&mut self, key: Key) -> (e: Effect)
        requires
            old(self).inv(),
        ensures
            final(self).inv(),
            match old(self).overlay {
                Some(Overlay::Picker(p)) => picker_keyed(*old(self), *final(self), p, key, e),
                _ => e is Nothing && *final(self) == *old(self),
            },
    {
        let ctrl = key.mods & CONTROL != 0;
        let ov = self.overlay.take();
        let mut p = match ov {
            Some(Overlay::Picker(p)) => p,
            other => {
                self.overlay = other;
                return Effect::Nothing;
            },
        };
        let ghost p0 = p;
        let ghost pre = *old(self);
        match key.code {
            KeyCode::Esc => {
                self.remember_picker(&p);
                return Effect::Nothing;
            },
            KeyCode::Char('c') if ctrl => {
                self.remember_picker(&p);
                return Effect::Nothing;
            },
            KeyCode::Enter => {
                let target = match p.selected_target() {
                    Some(t) => Some(t.clone()),
                    None => None,
                };
                self.remember_picker(&p);
                let ghost s0 = *self;
                proof {
                    assert(picker_closed(pre, s0, p0));
                }
                return match target {
                    Some(t) => self.goto(&t),
                    None => Effect::Nothing,
                };
            },
            // Telescope's `<C-q>`: send the whole result set to the quickfix list.
            KeyCode::Char('q') if ctrl => {
                let targets = p.all_targets();
                self.remember_picker(&p);
                let ghost s0 = *self;
                proof {
                    assert(picker_closed(pre, s0, p0));
                }
                if targets.len() == 0 {
                    self.message = Some(owned("no results to send"));
                    return Effect::Nothing;
                }
                let first = targets[0].clone();
                let count = decimal(targets.len());
                self.message = Some(joined_str(count.as_str(), " items in quickfix -- ]q / [q"));
                self.quickfix = targets;
                self.quickfix_at = 0;
                let ghost m = *self;
                let e = self.goto(&first);
                proof {
                    assert(went(m, *self, p0.item_list()[0].candidate.target, e));
                }
                return e;
            },
            KeyCode::Char('j') if ctrl => move_picker(&mut p, true),
            KeyCode::Char('n') if ctrl => move_picker(&mut p, true),
            KeyCode::Char('k') if ctrl => move_picker(&mut p, false),
            KeyCode::Char('p') if ctrl => move_picker(&mut p, false),
            KeyCode::Down => move_picker(&mut p, true),
            KeyCode::Up => move_picker(&mut p, false),
            KeyCode::Char('u') if ctrl => p.clear_prompt(),
            KeyCode::Char('w') if ctrl => {
                if p.can_delete_word() {
                    p.delete_word();
                }
                self.overlay = Some(Overlay::Picker(p));
                let ghost w = *self;
                let e = self.refresh_live_picker();
                proof {
                    assert(live_refreshed(with_picker(pre, p), *self, e));
                    assert(w == with_picker(pre, p));
                }
                return e;
            },
            KeyCode::Backspace => {
                p.backspace();
                self.overlay = Some(Overlay::Picker(p));
                let e = self.refresh_live_picker();
                proof {
                    assert(live_refreshed(with_picker(pre, p), *self, e));
                }
                return e;
            },
            KeyCode::Char(c) if !ctrl => {
                p.insert(c);
                self.overlay = Some(Overlay::Picker(p));
                let e = self.refresh_live_picker();
                proof {
                    assert(live_refreshed(with_picker(pre, p), *self, e));
                }
                return e;
            },
            _ => {},
        }
        self.overlay = Some(Overlay::Picker(p));
        Effect::Nothing
    }
}

/// Move a picker's selection one entry down or up, wrapping around.
fn move_picker(p: &mut Picker, down: bool)
    ensures
        picker_sel_moved(*old(p), *final(p), down),
{
    // A selection past `isize::MAX` cannot index a vector of items.
    if p.selection() < isize::MAX as usize {
        p.move_selection(if down { 1 } else { -1 });
    }
}


// ----------------------------------------------------------------- actions

pub open spec fn widened(w: u16) -> u16 {
    if w >= 86 {
        90
    } else {
        (w + 4) as u16
    }
}

pub open spec fn narrowed(w: u16) -> u16 {
    if w >= 18 {
        (w - 4) as u16
    } else {
        14
    }
}

pub open spec fn scrolled_right(h: usize) -> usize {
    if h >= MAX_HSCROLL - HSTEP {
        MAX_HSCROLL
    } else {
        (h + HSTEP) as usize
    }
}

/// The rows a page key moves by: the viewport, as a signed count.
pub open spec fn page_of(viewport: usize) -> int {
    if viewport <= isize::MAX {
        viewport as int
    } else {
        isize::MAX as int
    }
}

/// What the tree actions do to the tree, as the tree's own operations
/// state it.
pub open spec fn tree_acted(pre: Tree, post: Tree, a: Action, files: Seq<FileEntry>) -> bool {
    match a {
        Action::TreeToggleNode => match pre.selected_row() {
            Some(n) => if n.kind == NodeKind::Dir {
                crate::tree::reflowed(pre, post, crate::tree::toggled(pre.collapsed_paths(), n.path), files)
            } else {
                post == pre
            },
            None => post == pre,
        },
        Action::TreeCloseNode => match pre.selected_row() {
            Some(n) => match crate::tree::close_target(n) {
                Some(t) => exists|mid: Tree|
                    crate::tree::reflowed(pre, mid, pre.collapsed_paths().insert(t), files) && exists|r: bool|
                        revealed(mid, post, t, r, files),
                None => post == pre,
            },
            None => post == pre,
        },
        Action::TreeCloseAll => crate::tree::all_closed(pre, post, files),
        Action::TreeExpandAll => crate::tree::reflowed(pre, post, Set::empty(), files),
        Action::TreeToggleAll => {
            let rows = crate::tree::nodes_model(pre.node_list());
            &&& !crate::tree::has_dir_row(rows) ==> post == pre
            &&& crate::tree::has_dir_row(rows) && crate::tree::has_open_dir_row(rows) ==> crate::tree::all_closed(
                pre,
                post,
                files,
            )
            &&& crate::tree::has_dir_row(rows) && !crate::tree::has_open_dir_row(rows) ==> crate::tree::reflowed(
                pre,
                post,
                Set::empty(),
                files,
            )
        },
        Action::TreeNavigateUp => match pre.selected_row() {
            Some(n) => match crate::tree::parent_of_spec(n.path) {
                Some(q) => crate::tree::shallow_moved(pre, post, q),
                None => post == pre,
            },
            None => post == pre,
        },
        Action::TreeClearFilter => filter_applied(pre, post, Seq::empty(), files),
        Action::ToggleGroupDirs => exists|mid: Tree|
            crate::tree::regrouped(pre, mid, files) && match pre.selected_row() {
                Some(n) => exists|r: bool| revealed(mid, post, n.path, r, files),
                None => post == mid,
            },
        _ => true,
    }
}

/// The state with the cursor on row `c` of the file on screen, scrolled
/// so that the cursor shows.
pub open spec fn at_cursor(pre: App, c: int) -> App {
    App {
        cursor: c as usize,
        offset: scroll_spec(c, pre.offset as int, pre.viewport as int, pre.rows().len() as int) as usize,
        ..pre
    }
}

/// The cursor on the row that shows line `line` of the new side; where
/// folded context hides that line, on the nearest row before it, with a
/// note.
pub open spec fn landed(pre: App, post: App, line: usize) -> bool {
    match pre.doc {
        None => post == pre,
        Some(_) => match row_of_line(pre.rows(), line, 0) {
            Some(r) => post == at_cursor(pre, r),
            None => {
                let c = match row_before_line(pre.rows(), line, pre.rows().len() as int) {
                    Some(r) => r,
                    None => 0,
                };
                post == (App { message: post.message, ..at_cursor(pre, c) }) && says(post.message, outside_note(line))
            },
        },
    }
}

/// A picker or quickfix selection acted on: a file is asked for (and,
/// for a location, the line is landed on once it shows, or at once when
/// the file is already on screen); a row of this diff gets the cursor; a
/// file no longer in the diff gets a note.
pub open spec fn went(pre: App, post: App, t: TargetModel, e: Effect) -> bool {
    match t {
        TargetModel::File(p) => match path_index(pre.files@, p, 0) {
            Some(i) => e == Effect::Load(i as usize) && post == (App {
                focus: Context::Diff,
                after_load: AfterLoad::Stay,
                ..pre
            }),
            None => e is Nothing && post == (App { message: post.message, ..pre }) && says(post.message, gone_note(p)),
        },
        TargetModel::Location { path, line } => match path_index(pre.files@, path, 0) {
            Some(i) => if pre.current == Some(i as usize) {
                e is Nothing && landed(App { focus: Context::Diff, ..pre }, post, line as usize)
            } else {
                e == Effect::Load(i as usize) && post == (App {
                    focus: Context::Diff,
                    after_load: AfterLoad::NewLine(line as usize),
                    ..pre
                })
            },
            None => e is Nothing && post == (App { message: post.message, ..pre }) && says(
                post.message,
                gone_note(path),
            ),
        },
        TargetModel::Row(r) => e is Nothing && post == at_cursor(
            App { focus: Context::Diff, ..pre },
            min_int(r as int, sat_sub(pre.rows().len() as int, 1)),
        ),
    }
}

/// `]g` / `[g`: the tree's selection on the next or previous file row,
/// wrapping around, and that file asked for; a note when the tree holds no
/// file.
pub open spec fn file_stepped(pre: App, post: App, forward: bool, e: Effect) -> bool {
    let rows = crate::tree::nodes_model(pre.tree.node_list());
    let len = pre.tree.node_list().len() as int;
    let step = crate::tree::file_step(rows, pre.tree.sel() as int, forward, 1);
    if len > 0 && step is Some {
        let i = crate::tree::step_pos(pre.tree.sel() as int, len, forward, step->0);
        match rows[i].kind {
            NodeKind::File(f) => e == Effect::Load(f) && post == (App {
                tree: post.tree,
                after_load: AfterLoad::Stay,
                ..pre
            }) && reselected(pre.tree, post.tree, i),
            NodeKind::Dir => e is Nothing && post == (App { tree: post.tree, message: post.message, ..pre })
                && reselected(pre.tree, post.tree, i) && says(post.message, "no changed files"@),
        }
    } else {
        e is Nothing && post == (App { message: post.message, ..pre }) && says(post.message, "no changed files"@)
    }
}

/// `]q` / `[q`: the next or previous quickfix entry, wrapping around, with
/// its position on the status line, acted on.
pub open spec fn quickfix_stepped(pre: App, post: App, forward: bool, e: Effect) -> bool {
    let n = pre.quickfix@.len();
    if n == 0 {
        e is Nothing && post == (App { message: post.message, ..pre }) && says(post.message, "quickfix list is empty"@)
    } else {
        let at = crate::tree::step_from(pre.quickfix_at as int, n as int, forward);
        exists|m: App| {
            &&& m == (App { quickfix_at: at as usize, message: m.message, ..pre })
            &&& says(
                m.message,
                "("@ + crate::text::decimal_spec((at + 1) as nat) + "/"@ + crate::text::decimal_spec(n) + ")"@,
            )
            &&& #[trigger] went(m, post, pre.quickfix@[at]@, e)
        }
    }
}

/// The state with whole files shown instead of hunks, or back.
pub open spec fn context_flipped(pre: App) -> App {
    App { full_context: !pre.full_context, ..pre }
}

/// The rows of the file on screen asked for again (the layout or the
/// context changed), to keep the cursor where it was and then show `note`;
/// with no file on screen, just the note.
pub open spec fn doc_rebuilt(pre: App, post: App, note: Option<String>, e: Effect) -> bool {
    match pre.current {
        Some(i) => e == Effect::Load(i) && post == (App {
            after_load: AfterLoad::Rebuilt { keep: pre.cursor, note },
            ..pre
        }),
        None => e is Nothing && post == (App {
            message: match note {
                Some(m) => Some(m),
                None => pre.message,
            },
            ..pre
        }),
    }
}

/// The state with picker `q` open.
pub open spec fn with_picker(pre: App, q: Picker) -> App {
    App { overlay: Some(Overlay::Picker(q)), ..pre }
}

/// Picker `q` is `p` with its entries emptied.
pub open spec fn items_cleared(p: Picker, q: Picker) -> bool {
    &&& q.item_list() == Seq::<ItemModel>::empty()
    &&& q.sel() == crate::picker::clamped(p.sel(), 0)
    &&& q.kind_of() == p.kind_of()
    &&& q.title_text() == p.title_text()
    &&& q.prompt_text() == p.prompt_text()
    &&& q.scroll() == p.scroll()
    &&& q.sources() == p.sources()
}

/// A live picker asks the grep backend again once its prompt has two or
/// more characters, and shows nothing before; any other picker stays.
pub open spec fn live_refreshed(pre: App, post: App, e: Effect) -> bool {
    match pre.overlay {
        Some(Overlay::Picker(p)) => if p.kind_of() == Kind::Grep {
            if p.prompt_text().len() < 2 {
                &&& e is Nothing
                &&& post == (App { overlay: post.overlay, ..pre })
                &&& post.overlay matches Some(Overlay::Picker(q)) && items_cleared(p, q)
            } else {
                e matches Effect::Grep(query) && query@ == p.prompt_text() && post == pre
            }
        } else {
            e is Nothing && post == pre
        },
        _ => e is Nothing && post == pre,
    }
}

/// Picker `q` is `p` with its selection one entry down or up, wrapping
/// around (a selection beyond the reach of a signed count stays put).
pub open spec fn picker_sel_moved(p: Picker, q: Picker, down: bool) -> bool {
    let len = p.item_list().len() as int;
    &&& q.sel() == (if p.sel() < isize::MAX && len > 0 {
        (p.sel() + (if down {
            1int
        } else {
            -1int
        })) % len
    } else {
        p.sel() as int
    })
    &&& q.item_list() == p.item_list()
    &&& q.kind_of() == p.kind_of()
    &&& q.title_text() == p.title_text()
    &&& q.prompt_text() == p.prompt_text()
    &&& q.scroll() == p.scroll()
    &&& q.sources() == p.sources()
}

/// Picker `p` closed, remembered for `<leader>fr` with its prompt.
pub open spec fn picker_closed(pre: App, post: App, p: Picker) -> bool {
    &&& post == (App { overlay: None, last_picker: post.last_picker, ..pre })
    &&& post.last_picker matches Some(l) && l.kind == p.kind_of() && l.prompt@ == p.prompt_text()
}

/// `<C-q>`: the picker's whole result set becomes the quickfix list and
/// its first entry is acted on; an empty result set gets a note.
pub open spec fn sent_to_quickfix(pre: App, post: App, p: Picker, e: Effect) -> bool {
    let items = p.item_list();
    if items.len() == 0 {
        e is Nothing && post == (App { message: post.message, ..pre }) && says(post.message, "no results to send"@)
    } else {
        exists|m: App| {
            &&& m == (App { quickfix: m.quickfix, quickfix_at: 0, message: m.message, ..pre })
            &&& m.quickfix@.len() == items.len()
            &&& forall|i: int| 0 <= i < items.len() ==> (#[trigger] m.quickfix@[i])@ == items[i].candidate.target
            &&& says(m.message, crate::text::decimal_spec(items.len()) + " items in quickfix -- ]q / [q"@)
            &&& #[trigger] went(m, post, items[0].candidate.target, e)
        }
    }
}

/// `<C-w>` can cut the prompt back: the separator it cuts at, if any, is
/// one byte long.
pub open spec fn word_deletable(p: Picker) -> bool {
    let t = crate::text::trim_end_spec(p.prompt_text());
    crate::picker::last_sep(t, t.len() as int) matches Some(j) ==> (t[j] as int) < 0x80
}

/// A picker's prompt changed to `text`: its entries follow, and a live
/// picker asks the grep backend again.
pub open spec fn picker_prompt_set(pre: App, post: App, p: Picker, text: Seq<char>, e: Effect) -> bool {
    exists|q: Picker| Picker::prompt_changed(p, q, text) && #[trigger] live_refreshed(with_picker(pre, q), post, e)
}

/// A key pressed in picker `p`: telescope's insert-mode keys.
pub open spec fn picker_keyed(pre: App, post: App, p: Picker, key: Key, e: Effect) -> bool {
    let ctrl = ctrl_held(key);
    let code = key.code;
    if code == KeyCode::Esc || (code == KeyCode::Char('c') && ctrl) {
        e is Nothing && picker_closed(pre, post, p)
    } else if code == KeyCode::Enter {
        exists|s: App| {
            &&& #[trigger] picker_closed(pre, s, p)
            &&& if p.sel() < p.item_list().len() {
                went(s, post, p.item_list()[p.sel() as int].candidate.target, e)
            } else {
                post == s && e is Nothing
            }
        }
    } else if code == KeyCode::Char('q') && ctrl {
        exists|s: App| #[trigger] picker_closed(pre, s, p) && sent_to_quickfix(s, post, p, e)
    } else if ((code == KeyCode::Char('j') || code == KeyCode::Char('n')) && ctrl) || code == KeyCode::Down {
        &&& e is Nothing
        &&& post == (App { overlay: post.overlay, ..pre })
        &&& post.overlay matches Some(Overlay::Picker(q)) && picker_sel_moved(p, q, true)
    } else if ((code == KeyCode::Char('k') || code == KeyCode::Char('p')) && ctrl) || code == KeyCode::Up {
        &&& e is Nothing
        &&& post == (App { overlay: post.overlay, ..pre })
        &&& post.overlay matches Some(Overlay::Picker(q)) && picker_sel_moved(p, q, false)
    } else if code == KeyCode::Char('u') && ctrl {
        &&& e is Nothing
        &&& post == (App { overlay: post.overlay, ..pre })
        &&& post.overlay matches Some(Overlay::Picker(q)) && Picker::prompt_changed(p, q, Seq::empty())
    } else if code == KeyCode::Char('w') && ctrl {
        if word_deletable(p) {
            picker_prompt_set(pre, post, p, crate::picker::delete_word_spec(p.prompt_text()), e)
        } else {
            live_refreshed(pre, post, e)
        }
    } else if code == KeyCode::Backspace {
        picker_prompt_set(
            pre,
            post,
            p,
            if p.prompt_text().len() == 0 {
                Seq::empty()
            } else {
                p.prompt_text().drop_last()
            },
            e,
        )
    } else if code is Char && !ctrl {
        picker_prompt_set(pre, post, p, p.prompt_text().push(code->Char_0), e)
    } else {
        e is Nothing && post == pre
    }
}

/// The tree filtered by `filter` (matched without case): its rows walked
/// again, the selection kept in range.
pub open spec fn filter_applied(pre: Tree, post: Tree, filter: Seq<char>, files: Seq<FileEntry>) -> bool {
    &&& post.wf()
    &&& post.root_dir() == pre.root_dir()
    &&& post.collapsed_paths() == pre.collapsed_paths()
    &&& post.filter_text() == lowercase_of(filter)
    &&& post.grouping() == pre.grouping()
    &&& crate::tree::nodes_model(post.node_list()) == post.rows(files)
    &&& post.sel() == crate::tree::clamp_selection(pre.sel(), post.node_list().len())
}

/// The prompt's text edited to `text`; the tree filter follows its prompt
/// as it is typed.
pub open spec fn prompt_edited(pre: App, post: App, p: Prompt, text: Seq<char>) -> bool {
    &&& post == (App { overlay: post.overlay, tree: post.tree, ..pre })
    &&& post.overlay matches Some(Overlay::Prompt(q)) && q.kind == p.kind && q.input@ == text
    &&& if p.kind == PromptKind::TreeFilter {
        filter_applied(pre.tree, post.tree, text, pre.files@)
    } else {
        post.tree == pre.tree
    }
}

/// A key pressed in prompt `p` (`/` search or the tree filter): `<Esc>`
/// closes it (clearing the tree filter), `<CR>` runs a search and lands on
/// the first match at or after the cursor, the rest edit the text.
pub open spec fn prompt_keyed(pre: App, post: App, p: Prompt, key: Key, e: Effect) -> bool {
    let ctrl = ctrl_held(key);
    let code = key.code;
    &&& e is Nothing
    &&& if code == KeyCode::Esc || (code == KeyCode::Char('c') && ctrl) {
        if p.kind == PromptKind::TreeFilter {
            post == (App { overlay: None, tree: post.tree, ..pre }) && filter_applied(
                pre.tree,
                post.tree,
                Seq::empty(),
                pre.files@,
            )
        } else {
            post == (App { overlay: None, ..pre })
        }
    } else if code == KeyCode::Enter {
        if p.kind == PromptKind::Search {
            exists|m: App| {
                &&& m == (App { overlay: None, find: m.find, ..pre })
                &&& m.find.query@ == p.input@
                &&& m.find.at == 0
                &&& m.find.matches@ == found_rows(p.input@, pre.rows())
                &&& #[trigger] jumped(m, post, true, true)
            }
        } else {
            post == (App { overlay: None, ..pre })
        }
    } else if code == KeyCode::Backspace {
        prompt_edited(
            pre,
            post,
            p,
            if p.input@.len() == 0 {
                p.input@
            } else {
                p.input@.drop_last()
            },
        )
    } else if code == KeyCode::Char('u') && ctrl {
        prompt_edited(pre, post, p, Seq::empty())
    } else if code is Char && !ctrl {
        prompt_edited(pre, post, p, p.input@.push(code->Char_0))
    } else {
        post == pre
    }
}

/// A key pressed on the help screen: `j` / `k` scroll it, `g` goes to its
/// top, anything else closes it.
pub open spec fn help_keyed(pre: App, post: App, scroll: usize, key: Key, e: Effect) -> bool {
    &&& e is Nothing
    &&& post == (App {
        overlay: if key.code == KeyCode::Char('j') || key.code == KeyCode::Down {
            Some(Overlay::Help { scroll: if scroll == usize::MAX { scroll } else { (scroll + 1) as usize } })
        } else if key.code == KeyCode::Char('k') || key.code == KeyCode::Up {
            Some(Overlay::Help { scroll: sat_sub(scroll as int, 1) as usize })
        } else if key.code == KeyCode::Char('g') {
            Some(Overlay::Help { scroll: 0 })
        } else {
            None
        },
        ..pre
    })
}

/// What a picker of this kind lists.
pub open spec fn source_for(pre: App, kind: Kind) -> Seq<CandidateModel> {
    match kind {
        Kind::Files => file_candidates_spec(pre.files@),
        Kind::Buffers => buffer_candidates_spec(diff::strings_model(pre.recent@)),
        Kind::Lines => line_candidates_spec(pre.rows()),
        Kind::Grep => Seq::empty(),
    }
}

/// The title of a picker of this kind.
pub open spec fn title_for(pre: App, kind: Kind) -> Seq<char> {
    match kind {
        Kind::Files => "Changed files ("@ + crate::text::decimal_spec(pre.files@.len()) + ")"@,
        Kind::Buffers => "Recent"@,
        Kind::Lines => "Lines in diff"@,
        Kind::Grep => if (pre.spec@ is Worktree || pre.spec@ is Rev) && pre.ripgrep {
            "Live grep (ripgrep, changed files)"@
        } else {
            "Live grep (in diff contents)"@
        },
    }
}

/// A picker just opened on `src` with `prompt`: a static one lists what the
/// prompt selects, a live one nothing until the backend answers.
pub open spec fn fresh_picker(q: Picker, kind: Kind, title: Seq<char>, src: Seq<CandidateModel>, prompt: Seq<char>) -> bool {
    &&& q.kind_of() == kind
    &&& q.title_text() == title
    &&& q.prompt_text() == prompt
    &&& q.scroll() == 0
    &&& q.sel() == 0
    &&& q.sources() == src
    &&& if kind == Kind::Grep {
        q.item_list() == Seq::<ItemModel>::empty()
    } else {
        crate::picker::filtered(prompt, src, q.item_list())
    }
}

/// A picker of this kind opened with `prompt` (a live one asking the grep
/// backend at once); an empty list of recent files or of lines gets a note
/// instead.
pub open spec fn picker_opened(pre: App, post: App, kind: Kind, prompt: Option<Seq<char>>, e: Effect) -> bool {
    let src = source_for(pre, kind);
    if kind == Kind::Buffers && src.len() == 0 {
        e is Nothing && post == (App { message: post.message, ..pre }) && says(post.message, "no files opened yet"@)
    } else if kind == Kind::Lines && src.len() == 0 {
        e is Nothing && post == (App { message: post.message, ..pre }) && says(
            post.message,
            "nothing to search in this file"@,
        )
    } else {
        exists|q: Picker|
            fresh_picker(
                q,
                kind,
                title_for(pre, kind),
                src,
                match prompt {
                    Some(t) => t,
                    None => Seq::empty(),
                },
            ) && #[trigger] live_refreshed(with_picker(pre, q), post, e)
    }
}

/// The state with the last picker forgotten.
pub open spec fn forgot_picker(pre: App) -> App {
    App { last_picker: None, ..pre }
}

/// The tree reloaded from `files`: rebuilt with its folds and filter, the
/// row that was selected revealed again.
pub open spec fn tree_reloaded(pre: Tree, post: Tree, files: Seq<FileEntry>) -> bool {
    &&& post.wf()
    &&& post.built_from(files)
    &&& exists|mid: Tree|
        crate::tree::rebuilt(pre, mid, files) && match pre.selected_row() {
            Some(n) => exists|r: bool| revealed(mid, post, n.path, r, files),
            None => post == mid,
        }
}

/// The row the tree's next (or previous) file step lands on, if any.
pub open spec fn file_row_step(t: Tree, forward: bool) -> Option<int> {
    let len = t.node_list().len() as int;
    let step = crate::tree::file_step(crate::tree::nodes_model(t.node_list()), t.sel() as int, forward, 1);
    if len > 0 && step is Some {
        Some(crate::tree::step_pos(t.sel() as int, len, forward, step->0))
    } else {
        None
    }
}

/// The file that row shows.
pub open spec fn file_row_index(t: Tree, forward: bool) -> Option<usize> {
    match file_row_step(t, forward) {
        Some(i) => match crate::tree::nodes_model(t.node_list())[i].kind {
            NodeKind::File(f) => Some(f),
            NodeKind::Dir => None,
        },
        None => None,
    }
}

/// The tree with that row selected.
pub open spec fn tree_stepped(t: Tree, post: Tree, forward: bool) -> bool {
    match file_row_step(t, forward) {
        Some(i) => reselected(t, post, i),
        None => post == t,
    }
}

/// The viewer over a new file list, with no file on screen yet.
pub open spec fn over_files(pre: App, files: Vec<FileEntry>, t: Tree) -> App {
    App { files: files, tree: t, current: None, doc: None, ..pre }
}

/// A re-read of the repository done: the new file list and its tree, then
/// the file that was on screen asked for again, or else the tree's first
/// file, or else a note with the count of changed files; a failure goes on
/// the status line.
pub open spec fn reload_done(pre: App, post: App, result: Result<Vec<FileEntry>, String>, e: Effect) -> bool {
    match result {
        Err(m) => resumed(App { message: Some(m), ..pre }, post, e),
        Ok(files) => {
            let n = files@.len() as usize;
            let kept = match pre.current {
                Some(c) => if c < pre.files@.len() {
                    path_index(files@, pre.files@[c as int].path@, 0)
                } else {
                    None
                },
                None => None,
            };
            exists|t: Tree| {
                &&& #[trigger] tree_reloaded(pre.tree, t, files@)
                &&& match kept {
                    Some(i) => e == Effect::Load(i as usize) && post == (App {
                        after_load: AfterLoad::Reloaded(n),
                        ..over_files(pre, files, t)
                    }),
                    None => exists|t2: Tree| {
                        &&& #[trigger] tree_stepped(t, t2, true)
                        &&& match file_row_index(t, true) {
                            Some(f) => e == Effect::Load(f) && post == (App {
                                tree: t2,
                                after_load: AfterLoad::Reloaded(n),
                                ..over_files(pre, files, t)
                            }),
                            None => exists|s: App| {
                                &&& s == (App { tree: t2, message: s.message, ..over_files(pre, files, t) })
                                &&& says(s.message, reloaded_note_spec(n))
                                &&& #[trigger] resumed(s, post, e)
                            },
                        }
                    },
                }
            }
        },
    }
}

/// Picker `q` is `p` listing the grep hits `hits`, in the order they came.
pub open spec fn hits_listed(p: Picker, q: Picker, hits: Seq<Hit>) -> bool {
    &&& q.item_list() == Seq::new(
        hits.len(),
        |i: int| ItemModel { candidate: hit_candidate(hits[i]@), indices: Seq::empty() },
    )
    &&& q.sel() == crate::picker::clamped(p.sel(), hits.len())
    &&& q.kind_of() == p.kind_of()
    &&& q.title_text() == p.title_text()
    &&& q.prompt_text() == p.prompt_text()
    &&& q.scroll() == p.scroll()
    &&& q.sources() == p.sources()
}

/// Grep hits arrived: they become the entries of the live picker when it
/// is still open; then a key held back meanwhile is handled.
pub open spec fn hits_shown(pre: App, post: App, hits: Seq<Hit>, e: Effect) -> bool {
    match pre.overlay {
        Some(Overlay::Picker(p)) => if p.kind_of() == Kind::Grep {
            exists|q: Picker| hits_listed(p, q, hits) && #[trigger] resumed(with_picker(pre, q), post, e)
        } else {
            resumed(pre, post, e)
        },
        _ => resumed(pre, post, e),
    }
}

/// A tree just built from `files`: nothing folded, no filter, chains of
/// single directories grouped, the first row selected.
pub open spec fn fresh_tree(t: Tree, files: Seq<FileEntry>) -> bool {
    &&& t.wf()
    &&& t.built_from(files)
    &&& t.collapsed_paths() == Set::<Seq<char>>::empty()
    &&& t.filter_text() == Seq::<char>::empty()
    &&& t.grouping()
    &&& t.sel() == 0
    &&& crate::tree::nodes_model(t.node_list()) == t.rows(files)
}

/// How many rows the focused pane has.
pub open spec fn pane_len(a: App) -> int {
    if a.focus == Context::Tree {
        a.tree.node_list().len() as int
    } else {
        a.rows().len() as int
    }
}

/// The tree as it was, with row `sel` selected.
pub open spec fn reselected(pre: Tree, post: Tree, sel: int) -> bool {
    &&& post.sel() == sel
    &&& post.node_list() == pre.node_list()
    &&& post.root_dir() == pre.root_dir()
    &&& post.collapsed_list() == pre.collapsed_list()
    &&& post.filter_text() == pre.filter_text()
    &&& post.grouping() == pre.grouping()
}

/// A tree selection moved by `delta` rows, kept on a row.
pub open spec fn moved_sel(sel: int, delta: int, len: int) -> int {
    if len == 0 {
        sel
    } else {
        clamp_row(sel, delta, len)
    }
}

/// The focused pane's cursor moved by `delta` rows, kept on a row. In
/// the tree a selection beyond the reach of a signed count stays put.
pub open spec fn cursor_moved(pre: App, post: App, delta: int) -> bool {
    match pre.focus {
        Context::Tree => if pre.tree.sel() <= isize::MAX && pre.tree.sel() + delta <= isize::MAX {
            post == (App { tree: post.tree, ..pre }) && reselected(
                pre.tree,
                post.tree,
                moved_sel(pre.tree.sel() as int, delta, pre.tree.node_list().len() as int),
            )
        } else {
            post == pre
        },
        Context::Diff => if pre.rows().len() == 0 {
            post == pre
        } else {
            post == at_cursor(pre, clamp_row(pre.cursor as int, delta, pre.rows().len() as int))
        },
    }
}

/// The focused pane's cursor put on row `row` (the last row if there are
/// fewer); in the tree, row 0 is the first row and any other the last.
pub open spec fn row_reached(pre: App, post: App, row: int) -> bool {
    match pre.focus {
        Context::Tree => post == (App { tree: post.tree, ..pre }) && reselected(
            pre.tree,
            post.tree,
            if row == 0 {
                0
            } else {
                crate::tree::clamp_selection(usize::MAX, pre.tree.node_list().len()) as int
            },
        ),
        Context::Diff => post == at_cursor(pre, min_int(row, sat_sub(pre.rows().len() as int, 1))),
    }
}

/// `]c` / `[c`: the cursor on the next or previous hunk, wrapping at
/// either end with a note.
pub open spec fn hunk_stepped(pre: App, post: App, forward: bool) -> bool {
    match pre.doc {
        None => post == pre,
        Some(d) => match diff::step_hunk_spec(d.hunks@, pre.cursor, forward) {
            None => post == (App { message: post.message, ..pre }) && says(post.message, "no hunks"@),
            Some((row, wrapped)) => if wrapped {
                post == (App { message: post.message, ..at_cursor(pre, row as int) }) && says(
                    post.message,
                    "search hit the end, wrapped"@,
                )
            } else {
                post == at_cursor(pre, row as int)
            },
        },
    }
}

/// The match that `n` (forward) or `N` reaches from the cursor: the first
/// after the row before the cursor (`from_cursor`) or after the cursor,
/// or the last before the cursor, wrapping around.
pub open spec fn match_reached(m: Seq<usize>, cursor: usize, forward: bool, from_cursor: bool) -> int {
    let from = if from_cursor {
        sat_sub(cursor as int, 1)
    } else {
        cursor as int
    };
    if forward {
        let f = diff::first_after(m, from as usize, 0);
        if f < m.len() {
            f
        } else {
            0
        }
    } else {
        let b = diff::last_before(m, cursor, m.len() as int);
        if b >= 0 {
            b
        } else {
            m.len() - 1
        }
    }
}

/// The cursor on the next or previous search match, with its number on
/// the status line, or a note that there is none.
pub open spec fn jumped(pre: App, post: App, forward: bool, from_cursor: bool) -> bool {
    let m = pre.find.matches@;
    if m.len() == 0 {
        if pre.find.query@.len() > 0 {
            post == (App { message: post.message, ..pre }) && says(post.message, not_found_note(pre.find.query@))
        } else {
            post == pre
        }
    } else {
        let at = match_reached(m, pre.cursor, forward, from_cursor);
        &&& post == (App {
            find: Find { at: at as usize, ..pre.find },
            message: post.message,
            ..at_cursor(pre, m[at] as int)
        })
        &&& says(post.message, match_note((at + 1) as nat, m.len()))
    }
}

/// What `act` does, action by action: the state it leaves and the outside
/// work it asks for.
pub open spec fn acted(pre: App, post: App, a: Action, e: Effect) -> bool {
    match a {
        Action::Quit => post == (App { quit: true, ..pre }) && e is Nothing,
        Action::Help => post == (App { overlay: Some(Overlay::Help { scroll: 0 }), ..pre }) && e is Nothing,
        Action::Refresh => post == pre && e is Reload,
        Action::ToggleTree => post == (App {
            show_tree: !pre.show_tree,
            focus: if !pre.show_tree { Context::Tree } else { Context::Diff },
            ..pre
        }) && e is Nothing,
        Action::FocusTree => post == (App { focus: if pre.show_tree { Context::Tree } else { pre.focus }, ..pre })
            && e is Nothing,
        Action::FocusDiff => post == (App { focus: Context::Diff, ..pre }) && e is Nothing,
        Action::ToggleLayout => doc_rebuilt(
            App {
                layout: if pre.layout == Layout::Split {
                    Layout::Unified
                } else {
                    Layout::Split
                },
                ..pre
            },
            post,
            None,
            e,
        ),
        Action::WidenTree => post == (App { tree_width: widened(pre.tree_width), ..pre }) && e is Nothing,
        Action::NarrowTree => post == (App { tree_width: narrowed(pre.tree_width), ..pre }) && e is Nothing,
        Action::Down => e is Nothing && cursor_moved(pre, post, 1),
        Action::Up => e is Nothing && cursor_moved(pre, post, -1),
        Action::HalfPageDown => e is Nothing && cursor_moved(pre, post, page_of(pre.viewport) / 2),
        Action::HalfPageUp => e is Nothing && cursor_moved(pre, post, -(page_of(pre.viewport) / 2)),
        Action::PageDown => e is Nothing && cursor_moved(pre, post, page_of(pre.viewport)),
        Action::PageUp => e is Nothing && cursor_moved(pre, post, -page_of(pre.viewport)),
        Action::Top => e is Nothing && row_reached(pre, post, 0),
        Action::Bottom => e is Nothing && row_reached(pre, post, sat_sub(pane_len(pre), 1)),
        Action::Center => post == (App { offset: sat_sub(pre.cursor as int, pre.viewport as int / 2) as usize, ..pre })
            && e is Nothing,
        Action::ScrollLeft => post == (App { hscroll: sat_sub(pre.hscroll as int, HSTEP as int) as usize, ..pre })
            && e is Nothing,
        Action::ScrollRight => post == (App { hscroll: scrolled_right(pre.hscroll), ..pre }) && e is Nothing,
        Action::ScrollHome => post == (App { hscroll: 0, ..pre }) && e is Nothing,
        Action::ToggleFullContext => exists|n: String|
            n@ == full_context_note(!pre.full_context) && #[trigger] doc_rebuilt(context_flipped(pre), post, Some(n), e),
        Action::SwapSides => post == (App { swapped: !pre.swapped, ..pre }) && e is Nothing,
        Action::SearchPrompt => {
            &&& e is Nothing
            &&& post == (App { overlay: post.overlay, ..pre })
            &&& post.overlay matches Some(Overlay::Prompt(p))
            &&& p.kind == PromptKind::Search
            &&& p.input@.len() == 0
        },
        Action::ClearSearch => {
            &&& e is Nothing
            &&& post == (App { find: post.find, ..pre })
            &&& post.find.query@.len() == 0
            &&& post.find.matches@.len() == 0
            &&& post.find.at == 0
        },
        Action::PickGrepWord => {
            let w = if pre.cursor < pre.rows().len() {
                word_at_spec(pre.rows()[pre.cursor as int])
            } else {
                Seq::empty()
            };
            if w.len() == 0 {
                e is Nothing && post == (App { message: post.message, ..pre }) && says(
                    post.message,
                    "no word under the cursor"@,
                )
            } else {
                picker_opened(pre, post, Kind::Grep, Some(w), e)
            }
        },
        Action::PickResume => match pre.last_picker {
            Some(l) => picker_opened(forgot_picker(pre), post, l.kind, Some(l.prompt@), e),
            None => e is Nothing && post == (App { message: post.message, ..pre }) && says(
                post.message,
                "no picker to resume"@,
            ),
        },
        Action::TreeFilter => {
            &&& e is Nothing
            &&& post == (App { overlay: post.overlay, ..pre })
            &&& post.overlay matches Some(Overlay::Prompt(p))
            &&& p.kind == PromptKind::TreeFilter
            &&& p.input@ == pre.tree.filter_text()
        },
        Action::YankPath => match pre.current {
            Some(c) => if c < pre.files@.len() {
                &&& e matches Effect::Yank(path) && path@ == pre.files@[c as int].path@
                &&& post == (App { message: post.message, ..pre })
                &&& says(post.message, "yanked "@ + pre.files@[c as int].path@)
            } else {
                e is Nothing && post == pre
            },
            None => e is Nothing && post == pre,
        },
        Action::NextHunk | Action::PrevHunk => e is Nothing && hunk_stepped(pre, post, a == Action::NextHunk),
        Action::NextFile | Action::PrevFile => file_stepped(pre, post, a == Action::NextFile, e),
        Action::NextQuickfix | Action::PrevQuickfix => quickfix_stepped(pre, post, a == Action::NextQuickfix, e),
        Action::SearchNext | Action::SearchPrev => e is Nothing && jumped(pre, post, a == Action::SearchNext, false),
        Action::PickFiles => picker_opened(pre, post, Kind::Files, None, e),
        Action::PickGrep => picker_opened(pre, post, Kind::Grep, None, e),
        Action::PickBuffers => picker_opened(pre, post, Kind::Buffers, None, e),
        Action::PickLines => picker_opened(pre, post, Kind::Lines, None, e),
        Action::ToggleGroupDirs | Action::TreeToggleNode | Action::TreeCloseNode | Action::TreeToggleAll
        | Action::TreeCloseAll | Action::TreeExpandAll | Action::TreeNavigateUp | Action::TreeClearFilter => {
            &&& e is Nothing
            &&& post == (App { tree: post.tree, ..pre })
            &&& tree_acted(pre.tree, post.tree, a, pre.files@)
        },
        Action::TreeOpen => match pre.tree.selected_row() {
            Some(n) => match n.kind {
                NodeKind::Dir => e is Nothing && post == (App { tree: post.tree, ..pre }) && tree_acted(
                    pre.tree,
                    post.tree,
                    Action::TreeToggleNode,
                    pre.files@,
                ),
                NodeKind::File(i) => e == Effect::Load(i) && post == (App {
                    focus: Context::Diff,
                    after_load: AfterLoad::Stay,
                    ..pre
                }),
            },
            None => e is Nothing && post == pre,
        },
        Action::OpenEditor => if pre.focus == Context::Tree && pre.tree.selected_row() is Some {
            match pre.tree.selected_row()->0.kind {
                NodeKind::Dir => e is Nothing && post == (App { tree: post.tree, ..pre }) && tree_acted(
                    pre.tree,
                    post.tree,
                    Action::TreeToggleNode,
                    pre.files@,
                ),
                NodeKind::File(i) => e == Effect::Load(i) && post == (App {
                    focus: Context::Diff,
                    after_load: AfterLoad::Stay,
                    ..pre
                }),
            }
        } else {
            &&& post == pre
            &&& match pre.current {
                Some(c) => if c < pre.files@.len() {
                    e matches Effect::OpenEditor { path, line } && path@ == pre.files@[c as int].path@ && line == (if pre.cursor
                        < pre.rows().len() {
                        diff::editor_line_spec(pre.rows()[pre.cursor as int]) as usize
                    } else {
                        1
                    })
                } else {
                    e is Nothing
                },
                None => e is Nothing,
            }
        },
    }
}

pub open spec fn full_context_note(full: bool) -> Seq<char> {
    if full {
        "showing whole file"@
    } else {
        "showing 3 lines of context"@
    }
}

impl App {
    /// Rebuild the rows of the file on screen (the layout or the context
    /// changed), keeping the cursor where it can be kept; `note` goes on the
    /// status line afterwards.
    fn rebuild_doc(&mut self, note: Option<String>) -> (e: Effect)
        ensures
            doc_rebuilt(*old(self), *final(self), note, e),
    {
        match self.current {
            Some(i) => {
                let keep = self.cursor;
                self.request(i, AfterLoad::Rebuilt { keep, note })
            },
            None => {
                if let Some(m) = note {
                    self.message = Some(m);
                }
                Effect::Nothing
            },
        }
    }

    /// List the changed files again: the event loop does, and hands the
    /// result to `reloaded`.
    pub fn reload(&self) -> (e: Effect)
        ensures
            e is Reload,
    {
        Effect::Reload
    }

    /// The changed files were listed again: rebuild the tree and reopen the
    /// file that was on screen, or the first one when it is gone; or show
    /// why listing failed.
    pub fn reloaded(&mut self, result: Result<Vec<FileEntry>, String>) -> (e: Effect)
        requires
            old(self).inv(),
        ensures
            final(self).inv(),
            reload_done(*old(self), *final(self), result, e),
    {
        match result {
            Ok(files) => {
                let path: Option<String> = match self.current_file() {
                    Some(f) => Some(owned(f.path.as_str())),
                    None => None,
                };
                let ghost fs = files;
                self.files = files;
                self.tree.reload(self.files.as_slice());
                self.current = None;
                self.doc = None;
                let ghost t = self.tree;
                proof {
                    assert(tree_reloaded(old(self).tree, t, fs@));
                    assert(*self == over_files(*old(self), fs, t));
                }
                let n = self.files.len();
                let index = match &path {
                    Some(p) => position(&self.files, p.as_str()),
                    None => None,
                };
                match index {
                    Some(i) => {
                        return self.request(i, AfterLoad::Reloaded(n));
                    },
                    None => {
                        let step = self.step_tree_file();
                        let ghost t2 = self.tree;
                        proof {
                            assert(tree_stepped(t, t2, true));
                        }
                        match step {
                            Some(i) => {
                                return self.request(i, AfterLoad::Reloaded(n));
                            },
                            None => {
                                self.message = Some(reloaded_note(n));
                                let ghost s0 = *self;
                                let e = self.resume();
                                proof {
                                    assert(resumed(s0, *self, e));
                                }
                                return e;
                            },
                        }
                    },
                }
            },
            Err(e) => {
                self.message = Some(e);
            },
        }
        self.resume()
    }

    /// The tree's next file row, keeping what the tree was built from.
    fn step_tree_file(&mut self) -> (r: Option<usize>)
        requires
            old(self).inv(),
        ensures
            final(self).inv(),
            *final(self) == (App { tree: final(self).tree, ..*old(self) }),
            tree_stepped(old(self).tree, final(self).tree, true),
            r == file_row_index(old(self).tree, true),
            forall|f: Seq<FileEntry>| old(self).tree.built_from(f) ==> #[trigger] final(self).tree.built_from(f),
    {
        let ghost t0 = self.tree;
        let r = self.tree.step_file(true);
        proof {
            assert forall|f: Seq<FileEntry>| t0.built_from(f) implies #[trigger] self.tree.built_from(f) by {
                crate::tree::built_from_follows_root(t0, self.tree, f);
            }
        }
        r
    }

    /// Carry out one action. What needs the outside world comes back as
    /// the effect to perform.
    #[verifier::rlimit(100)]
    #[verifier::spinoff_prover]
    fn act(&mut self, action: Action) -> (e: Effect)
        requires
            old(self).inv(),
        ensures
            final(self).inv(),
            final(self).replay == old(self).replay,
            final(self).pending == old(self).pending,
            final(self).keymap == old(self).keymap,
            acted(*old(self), *final(self), action, e),
    {
        match action {
            Action::Quit => self.quit = true,
            Action::Help => self.overlay = Some(Overlay::Help { scroll: 0 }),
            Action::Refresh => {
                return self.reload();
            },
            Action::ToggleTree => {
                self.show_tree = !self.show_tree;
                self.focus = if self.show_tree {
                    Context::Tree
                } else {
                    Context::Diff
                };
            },
            Action::FocusTree => {
                if self.show_tree {
                    self.focus = Context::Tree;
                }
            },
            Action::FocusDiff => self.focus = Context::Diff,
            Action::ToggleLayout => {
                self.layout = match self.layout {
                    Layout::Split => Layout::Unified,
                    Layout::Unified => Layout::Split,
                };
                // The row list itself differs between the two layouts.
                return self.rebuild_doc(None);
            },
            Action::WidenTree => {
                self.tree_width = if self.tree_width >= 86 {
                    90
                } else {
                    self.tree_width + 4
                };
            },
            Action::NarrowTree => {
                self.tree_width = if self.tree_width >= 18 {
                    self.tree_width - 4
                } else {
                    14
                };
            },
            Action::Down | Action::Up | Action::HalfPageDown | Action::HalfPageUp | Action::PageDown | Action::PageUp
            | Action::Top | Action::Bottom | Action::NextHunk | Action::PrevHunk | Action::SearchNext
            | Action::SearchPrev | Action::ClearSearch => {
                self.act_move(action);
            },
            Action::Center => {
                let half = self.viewport / 2;
                self.offset = if self.cursor >= half {
                    self.cursor - half
                } else {
                    0
                };
            },

            Action::NextFile => {
                return self.step_file(true);
            },
            Action::PrevFile => {
                return self.step_file(false);
            },
            Action::NextQuickfix => {
                return self.step_quickfix(true);
            },
            Action::PrevQuickfix => {
                return self.step_quickfix(false);
            },
            Action::ScrollLeft => {
                self.hscroll = if self.hscroll >= HSTEP {
                    self.hscroll - HSTEP
                } else {
                    0
                };
            },
            Action::ScrollRight => {
                self.hscroll = if self.hscroll >= MAX_HSCROLL - HSTEP {
                    MAX_HSCROLL
                } else {
                    self.hscroll + HSTEP
                };
            },
            Action::ScrollHome => self.hscroll = 0,
            Action::ToggleFullContext => {
                self.full_context = !self.full_context;
                let note = if self.full_context {
                    owned("showing whole file")
                } else {
                    owned("showing 3 lines of context")
                };
                return self.rebuild_doc(Some(note));
            },

            Action::SwapSides => {
                self.swapped = !self.swapped;
            },
            Action::SearchPrompt => {
                self.overlay = Some(Overlay::Prompt(Prompt { kind: PromptKind::Search, input: String::new() }));
            },

            Action::PickFiles | Action::PickBuffers | Action::PickLines | Action::PickGrep | Action::PickGrepWord
            | Action::PickResume => {
                return self.act_pick(action);
            },
            Action::TreeOpen => {
                if self.selected_is_dir() {
                    self.tree.toggle(self.files.as_slice());
                } else if let Some(i) = self.tree.selected_file() {
                    self.focus = Context::Diff;
                    return self.request(i, AfterLoad::Stay);
                }
            },
            Action::TreeToggleNode | Action::TreeCloseNode | Action::TreeToggleAll | Action::TreeCloseAll
            | Action::TreeExpandAll | Action::TreeNavigateUp | Action::TreeClearFilter | Action::ToggleGroupDirs => {
                self.act_tree(action);
            },
            Action::TreeFilter => {
                let input = owned(self.tree.filter());
                self.overlay = Some(Overlay::Prompt(Prompt { kind: PromptKind::TreeFilter, input }));
            },

            Action::YankPath => {
                if let Some(f) = self.current_file() {
                    let path = owned(f.path.as_str());
                    self.message = Some(joined_str("yanked ", path.as_str()));
                    return Effect::Yank(path);
                }
            },
            Action::OpenEditor => {
                if self.focus == Context::Tree {
                    if self.selected_is_dir() {
                        self.tree.toggle(self.files.as_slice());
                        return Effect::Nothing;
                    }
                    if let Some(i) = self.tree.selected_file() {
                        self.focus = Context::Diff;
                        return self.request(i, AfterLoad::Stay);
                    }
                }
                if let Some(file) = self.current_file() {
                    let path = owned(file.path.as_str());
                    let line = match self.current_row() {
                        Some(r) => r.editor_line(),
                        None => 1,
                    };
                    return Effect::OpenEditor { path, line };
                }
            },
        }
        Effect::Nothing
    }

    /// The tree actions.
    fn act_tree(&mut self, action: Action)
        requires
            old(self).inv(),
            action == Action::TreeToggleNode || action == Action::TreeCloseNode || action == Action::TreeToggleAll
                || action == Action::TreeCloseAll || action == Action::TreeExpandAll || action == Action::TreeNavigateUp
                || action == Action::TreeClearFilter || action == Action::ToggleGroupDirs,
        ensures
            final(self).inv(),
            *final(self) == (App { tree: final(self).tree, ..*old(self) }),
            tree_acted(old(self).tree, final(self).tree, action, old(self).files@),
    {
        match action {
            Action::TreeToggleNode => self.tree.toggle(self.files.as_slice()),
            Action::TreeCloseNode => self.tree.close_node(self.files.as_slice()),
            Action::TreeToggleAll => {
                let _ = self.tree.toggle_all(self.files.as_slice());
            },
            Action::TreeCloseAll => self.tree.close_all(self.files.as_slice()),
            Action::TreeExpandAll => self.tree.expand_all(self.files.as_slice()),
            Action::TreeNavigateUp => self.tree.navigate_up(),
            Action::TreeClearFilter => {
                proof {
                    reveal_strlit("");
                    assert(""@ =~= Seq::<char>::empty());
                }
                self.tree.set_filter("", self.files.as_slice())
            },
            _ => self.tree.toggle_group_dirs(self.files.as_slice()),
        }
    }

    /// The actions that move the cursor of the focused pane.
    #[verifier::rlimit(100)]
    #[verifier::spinoff_prover]
    fn act_move(&mut self, action: Action)
        requires
            old(self).inv(),
            action == Action::Down || action == Action::Up || action == Action::HalfPageDown || action
                == Action::HalfPageUp || action == Action::PageDown || action == Action::PageUp || action == Action::Top
                || action == Action::Bottom || action == Action::NextHunk || action == Action::PrevHunk || action
                == Action::SearchNext || action == Action::SearchPrev || action == Action::ClearSearch,
        ensures
            final(self).inv(),
            final(self).replay == old(self).replay,
            final(self).pending == old(self).pending,
            final(self).keymap == old(self).keymap,
            acted(*old(self), *final(self), action, Effect::Nothing),
    {
        match action {
            Action::Down => self.move_cursor(1),
            Action::Up => self.move_cursor(-1),
            Action::HalfPageDown => self.move_cursor(self.page() / 2),
            Action::HalfPageUp => self.move_cursor(-(self.page() / 2)),
            Action::PageDown => self.move_cursor(self.page()),
            Action::PageUp => self.move_cursor(-self.page()),
            Action::Top => self.goto_row(0),
            Action::Bottom => {
                let last = self.rows_len();
                self.goto_row(
                    if last >= 1 {
                        last - 1
                    } else {
                        0
                    },
                );
            },
            Action::NextHunk => self.step_hunk(true),
            Action::PrevHunk => self.step_hunk(false),
            Action::SearchNext => self.jump_to_match(true, false),
            Action::SearchPrev => self.jump_to_match(false, false),
            _ => {
                self.find.query = String::new();
                self.refresh_find();
            },
        }
    }

    /// The actions that open a picker.
    fn act_pick(&mut self, action: Action) -> (e: Effect)
        requires
            old(self).inv(),
            action == Action::PickFiles || action == Action::PickBuffers || action == Action::PickLines || action
                == Action::PickGrep || action == Action::PickGrepWord || action == Action::PickResume,
        ensures
            final(self).inv(),
            final(self).replay == old(self).replay,
            final(self).pending == old(self).pending,
            final(self).keymap == old(self).keymap,
            acted(*old(self), *final(self), action, e),
    {
        match action {
            Action::PickFiles => self.open_picker(Kind::Files, None),
            Action::PickBuffers => self.open_picker(Kind::Buffers, None),
            Action::PickLines => self.open_picker(Kind::Lines, None),
            Action::PickGrep => self.open_picker(Kind::Grep, None),
            Action::PickGrepWord => {
                let word = self.word_under_cursor();
                if word.as_str().is_empty() {
                    self.message = Some(owned("no word under the cursor"));
                    Effect::Nothing
                } else {
                    self.open_picker(Kind::Grep, Some(word))
                }
            },
            _ => {
                let last = self.last_picker.take();
                match last {
                    Some(l) => self.open_picker(l.kind, Some(l.prompt)),
                    None => {
                        self.message = Some(owned("no picker to resume"));
                        Effect::Nothing
                    },
                }
            },
        }
    }

    /// The rows a page key moves by.
    fn page(&self) -> (r: isize)
        ensures
            r == page_of(self.viewport),
            r >= 0,
    {
        if self.viewport <= isize::MAX as usize {
            self.viewport as isize
        } else {
            isize::MAX
        }
    }

    fn selected_is_dir(&self) -> (r: bool)
        ensures
            r == (self.tree.selected_row() matches Some(n) && n.kind == crate::tree::NodeKind::Dir),
    {
        self.tree.selected_is_dir()
    }
}


// ------------------------------------------------------------ status line

/// What the preview pane shows of a blob: its lines, a note for a binary
/// file, nothing for a missing one.
pub open spec fn blob_lines_spec(blob: Option<&Blob>) -> Seq<Seq<char>> {
    match blob {
        Some(Blob::Text(t)) => crate::text::lines_of(t@),
        Some(Blob::Binary) => seq!["<binary file>"@],
        _ => Seq::empty(),
    }
}

fn blob_lines(blob: Option<&Blob>) -> (r: Vec<String>)
    ensures
        diff::strings_model(r@) == blob_lines_spec(blob),
{
    match blob {
        Some(Blob::Text(t)) => {
            let v = crate::text::lines(t.as_str());
            proof {
                assert(diff::strings_model(v@) =~= crate::text::lines_of(t@));
            }
            v
        },
        Some(Blob::Binary) => {
            let mut v: Vec<String> = Vec::new();
            v.push(owned("<binary file>"));
            proof {
                assert(diff::strings_model(v@) =~= seq!["<binary file>"@]);
            }
            v
        },
        _ => {
            let v: Vec<String> = Vec::new();
            proof {
                assert(diff::strings_model(v@) =~= Seq::<Seq<char>>::empty());
            }
            v
        },
    }
}

pub open spec fn summary_spec(doc: Option<Document>) -> Seq<char> {
    match doc {
        None => "no file"@,
        Some(d) => match d.body {
            Body::Binary => "binary"@,
            Body::Identical => "no content change"@,
            Body::Text => "+"@ + crate::text::decimal_spec(d.added as nat) + " -"@ + crate::text::decimal_spec(
                d.removed as nat,
            ),
        },
    }
}

impl App {
    /// A viewer of the changed `files` of `spec` in `repo`; `ripgrep` says
    /// whether `rg` can be run. The first changed file is asked for right
    /// away, so the panes are never blank on launch.
    pub fn new(repo: Repo, spec: Spec, files: Vec<FileEntry>, ripgrep: bool) -> (r: (App, Effect))
        ensures
            r.0.inv(),
            r.0.repo == repo,
            r.0.spec == spec,
            r.0.files@ == files@,
            r.0.ripgrep == ripgrep,
            r.0.current is None,
            r.0.doc is None,
            r.0.cursor == 0,
            r.0.offset == 0,
            r.0.hscroll == 0,
            r.0.viewport == 1,
            r.0.focus == Context::Diff,
            r.0.tree_offset == 0,
            r.0.show_tree,
            r.0.tree_width == 34,
            r.0.layout == Layout::Split,
            !r.0.full_context,
            !r.0.swapped,
            r.0.keymap.table(Context::Diff) == keys::build_spec(keys::diff_only_spec() + keys::shared_spec()),
            r.0.keymap.table(Context::Tree) == keys::build_spec(keys::tree_only_spec() + keys::shared_spec()),
            r.0.pending@.len() == 0,
            r.0.overlay is None,
            r.0.message is None,
            !r.0.quit,
            r.0.quickfix@.len() == 0,
            r.0.quickfix_at == 0,
            r.0.recent@.len() == 0,
            r.0.last_picker is None,
            r.0.find.query@.len() == 0,
            r.0.find.matches@.len() == 0,
            r.0.find.at == 0,
            r.0.after_load == AfterLoad::Stay,
            r.0.replay is None,
            exists|t: Tree| {
                &&& #[trigger] fresh_tree(t, files@)
                &&& tree_stepped(t, r.0.tree, true)
                &&& r.1 == match file_row_index(t, true) {
                    Some(i) => Effect::Load(i),
                    None => Effect::Nothing,
                }
            },
    {
        let tree = Tree::new(files.as_slice());
        let mut app = App {
            repo,
            spec,
            files,
            tree,
            current: None,
            doc: None,
            cursor: 0,
            offset: 0,
            hscroll: 0,
            viewport: 1,
            focus: Context::Diff,
            tree_offset: 0,
            show_tree: true,
            tree_width: 34,
            layout: Layout::Split,
            full_context: false,
            swapped: false,
            keymap: Keymap::new(),
            pending: Vec::new(),
            overlay: None,
            message: None,
            quit: false,
            quickfix: Vec::new(),
            quickfix_at: 0,
            recent: Vec::new(),
            last_picker: None,
            find: Find { query: String::new(), matches: Vec::new(), at: 0 },
            ripgrep,
            after_load: AfterLoad::Stay,
            replay: None,
        };
        let ghost t0 = app.tree;
        proof {
            assert(fresh_tree(t0, files@));
        }
        // Open the first changed file so the panes are never blank on launch.
        let e = match app.step_tree_file() {
            Some(i) => app.request(i, AfterLoad::Stay),
            None => Effect::Nothing,
        };
        (app, e)
    }

    /// Lines shown in the picker's preview pane, plus the one to centre on.
    /// A row of the diff on screen previews the diff; a file or a location
    /// previews `blob`, the contents the event loop read for it (the new
    /// side, or the old one when the new side is not text).
    pub fn preview(&self, target: &Target, blob: Option<&Blob>) -> (r: Preview)
        ensures
            match target@ {
                TargetModel::Row(row) => match self.doc {
                    None => r.title@.len() == 0 && r.lines@.len() == 0 && r.focus == 0,
                    Some(d) => {
                        &&& r.title@ == match self.current {
                            Some(i) => if i < self.files@.len() {
                                self.files@[i as int].path@
                            } else {
                                Seq::empty()
                            },
                            None => Seq::empty(),
                        }
                        &&& diff::strings_model(r.lines@) == Seq::new(
                            self.rows().len(),
                            |k: int| diff::search_text_spec(self.rows()[k]),
                        )
                        &&& r.focus == row
                    },
                },
                TargetModel::File(path) => r.title@ == path && diff::strings_model(r.lines@) == blob_lines_spec(blob)
                    && r.focus == 0,
                TargetModel::Location { path, line } => {
                    &&& r.title@ == path + ":"@ + crate::text::decimal_spec(line)
                    &&& diff::strings_model(r.lines@) == blob_lines_spec(blob)
                    &&& r.focus == sat_sub(line as int, 1)
                },
            },
    {
        match target {
            Target::Row(row) => {
                let doc = match &self.doc {
                    Some(d) => d,
                    None => {
                        return Preview { title: String::new(), lines: Vec::new(), focus: 0 };
                    },
                };
                let title = match self.current_file() {
                    Some(f) => owned(f.path.as_str()),
                    None => String::new(),
                };
                let ghost want = Seq::new(self.rows().len(), |k: int| diff::search_text_spec(self.rows()[k]));
                let mut lines: Vec<String> = Vec::new();
                let mut k: usize = 0;
                while k < doc.rows.len()
                    invariant
                        self.doc == Some(*doc),
                        want == Seq::new(self.rows().len(), |k: int| diff::search_text_spec(self.rows()[k])),
                        k <= doc.rows@.len(),
                        diff::strings_model(lines@) == want.take(k as int),
                    decreases doc.rows@.len() - k,
                {
                    let ghost before = diff::strings_model(lines@);
                    lines.push(owned(doc.rows[k].search_text()));
                    proof {
                        assert(diff::strings_model(lines@) =~= before.push(want[k as int]));
                        assert(diff::strings_model(lines@) =~= want.take(k + 1));
                    }
                    k = k + 1;
                }
                proof {
                    assert(want.take(k as int) =~= want);
                }
                Preview { title, lines, focus: *row }
            },
            Target::File(path) => Preview { title: owned(path.as_str()), lines: blob_lines(blob), focus: 0 },
            Target::Location { path, line } => {
                let mut title: Vec<char> = Vec::new();
                push_str(&mut title, path.as_str());
                push_str(&mut title, ":");
                push_decimal(&mut title, *line);
                Preview {
                    title: string_of(&title),
                    lines: blob_lines(blob),
                    focus: if *line >= 1 {
                        *line - 1
                    } else {
                        0
                    },
                }
            },
        }
    }

    /// Which hunk the cursor is in, as `(nth, total)`.
    pub fn hunk_position(&self) -> (r: Option<(usize, usize)>)
        ensures
            r == hunk_position_spec(self.doc, self.cursor),
    {
        let doc = match &self.doc {
            Some(d) => d,
            None => {
                return None;
            },
        };
        if doc.hunks.len() == 0 || self.cursor >= doc.rows.len() {
            return None;
        }
        let h = doc.rows[self.cursor].hunk;
        Some((
            if h >= 1 {
                h
            } else {
                1
            },
            doc.hunks.len(),
        ))
    }

    /// Status-line summary of the current file.
    pub fn summary(&self) -> (r: String)
        ensures
            r@ == summary_spec(self.doc),
    {
        let doc = match &self.doc {
            Some(d) => d,
            None => {
                return owned("no file");
            },
        };
        match doc.body {
            Body::Binary => owned("binary"),
            Body::Identical => owned("no content change"),
            Body::Text => {
                let mut out: Vec<char> = Vec::new();
                push_str(&mut out, "+");
                push_decimal(&mut out, doc.added);
                push_str(&mut out, " -");
                push_decimal(&mut out, doc.removed);
                string_of(&out)
            },
        }
    }

    /// The keys typed so far of an unfinished sequence.
    pub fn pending_label(&self) -> (r: String)
        ensures
            r@ == keys::render_all(self.pending@),
    {
        keys::render_pending(self.pending.as_slice())
    }
}


/// Which hunk the cursor is in, as `(nth, total)`; hunks count from 1.
pub open spec fn hunk_position_spec(doc: Option<Document>, cursor: usize) -> Option<(usize, usize)> {
    match doc {
        None => None,
        Some(d) => if d.hunks@.len() == 0 || cursor >= d.rows@.len() {
            None
        } else {
            let h = d.rows@[cursor as int].hunk;
            Some((if h >= 1 { h } else { 1 }, d.hunks@.len() as usize))
        },
    }
}

pub open spec fn label_spec(kind: PromptKind) -> Seq<char> {
    if kind == PromptKind::Search {
        "/"@
    } else {
        "filter "@
    }
}

/// `text` and a trailing space after `lead`.
pub open spec fn field(lead: Seq<char>, text: Seq<char>) -> Seq<char> {
    lead + text + seq![' ']
}

/// The status line: the prompt being typed, else the message, else the
/// pane, HEAD, the file, the cursor's row, the change summary, and -- when
/// there is one -- the hunk, the search, the whole-file mode, the
/// quickfix position and the keys of an unfinished sequence.
pub open spec fn status_spec(a: App, head: Seq<char>) -> Seq<(Seq<char>, Paint)> {
    match a.overlay {
        Some(Overlay::Prompt(p)) => seq![(label_spec(p.kind) + p.input@, Paint::Prompt)],
        _ => match a.message {
            Some(m) => seq![(seq![' '] + m@, Paint::Warn)],
            None => {
                let mode = if a.focus == Context::Tree { "TREE"@ } else { "DIFF"@ };
                let position = match a.doc {
                    None => Seq::empty(),
                    Some(d) => if d.rows@.len() == 0 {
                        Seq::empty()
                    } else {
                        crate::text::decimal_spec((a.cursor + 1) as nat) + "/"@ + crate::text::decimal_spec(
                            d.rows@.len(),
                        )
                    },
                };
                let path = match a.current {
                    Some(i) => if i < a.files@.len() {
                        a.files@[i as int].path@
                    } else {
                        "-"@
                    },
                    None => "-"@,
                };
                let bar = "\u{2502} "@;
                seq![
                    (field(seq![' '], mode), Paint::StatusAccent),
                    (field(seq![' '], head), Paint::Status),
                    (field(bar, path), Paint::Status),
                    (field(bar, position), Paint::Status),
                    (field(bar, summary_spec(a.doc)), Paint::Status),
                ] + match hunk_position_spec(a.doc, a.cursor) {
                    Some((at, total)) => seq![
                        (field(bar + "hunk "@, crate::text::decimal_spec(at as nat) + "/"@ + crate::text::decimal_spec(total as nat)), Paint::Status),
                    ],
                    None => Seq::empty(),
                } + if a.find.query@.len() > 0 {
                    seq![(field(bar + "/"@, a.find.query@ + seq![' '] + crate::text::decimal_spec(a.find.matches@.len())), Paint::Status)]
                } else {
                    Seq::empty()
                } + if a.full_context {
                    seq![(bar + "whole file "@, Paint::Status)]
                } else {
                    Seq::empty()
                } + if a.quickfix@.len() > 0 {
                    seq![
                        (field(bar + "qf "@, crate::text::decimal_spec((a.quickfix_at + 1) as nat) + "/"@ + crate::text::decimal_spec(a.quickfix@.len())), Paint::Status),
                    ]
                } else {
                    Seq::empty()
                } + seq![(bar + "? help "@, Paint::Status)] + if keys::render_all(a.pending@).len() > 0 {
                    seq![(field(bar, keys::render_all(a.pending@)), Paint::StatusAccent)]
                } else {
                    Seq::empty()
                }
            },
        },
    }
}

fn field_of(lead: &str, text: &str) -> (r: String)
    ensures
        r@ == field(lead@, text@),
{
    let mut out: Vec<char> = Vec::new();
    push_str(&mut out, lead);
    push_str(&mut out, text);
    out.push(' ');
    string_of(&out)
}

impl App {
    /// The status line, `head` being where HEAD is; the whole line is in
    /// the status style.
    #[verifier::rlimit(100)]
    #[verifier::spinoff_prover]
    pub fn status_line(&self, head: &str) -> (r: Painted)
        requires
            self.quickfix@.len() > 0 ==> self.quickfix_at < usize::MAX,
            self.cursor < usize::MAX,
        ensures
            runs_model(r.spans@) == status_spec(*self, head@),
            r.line == Some(Paint::Status),
    {
        proof {
            reveal_strlit("TREE");
            reveal_strlit("DIFF");
            reveal_strlit("-");
            reveal_strlit("/");
            reveal_strlit(" ");
            reveal_strlit("\u{2502} ");
        }
        let mut spans: Vec<(String, Paint)> = Vec::new();
        // A prompt takes over the status line, exactly as `/` does in vim.
        if let Some(Overlay::Prompt(p)) = &self.overlay {
            spans.push((joined_str(p.label(), p.input.as_str()), Paint::Prompt));
            proof {
                assert(runs_model(spans@) =~= status_spec(*self, head@));
            }
            return Painted { spans, line: Some(Paint::Status) };
        }
        if let Some(m) = &self.message {
            spans.push((joined_str(" ", m.as_str()), Paint::Warn));
            proof {
                assert(" "@ =~= seq![' ']);
                assert(runs_model(spans@) =~= status_spec(*self, head@));
            }
            return Painted { spans, line: Some(Paint::Status) };
        }
        let bar = "\u{2502} ";
        let mode = match self.focus {
            Context::Tree => "TREE",
            Context::Diff => "DIFF",
        };
        let mut position: Vec<char> = Vec::new();
        if let Some(d) = &self.doc {
            if d.rows.len() > 0 {
                push_decimal(&mut position, self.cursor + 1);
                push_str(&mut position, "/");
                push_decimal(&mut position, d.rows.len());
            }
        }
        let position = string_of(&position);
        let path = match self.current_file() {
            Some(f) => f.path.as_str(),
            None => "-",
        };
        let summary = self.summary();
        let ghost a = *self;
        let ghost barv = "\u{2502} "@;
        let ghost modev = if a.focus == Context::Tree { "TREE"@ } else { "DIFF"@ };
        let ghost pathv = match a.current {
            Some(i) => if i < a.files@.len() {
                a.files@[i as int].path@
            } else {
                "-"@
            },
            None => "-"@,
        };
        let ghost posv = match a.doc {
            None => Seq::<char>::empty(),
            Some(d) => if d.rows@.len() == 0 {
                Seq::<char>::empty()
            } else {
                crate::text::decimal_spec((a.cursor + 1) as nat) + "/"@ + crate::text::decimal_spec(d.rows@.len())
            },
        };
        proof {
            assert(" "@ =~= seq![' ']);
            assert(position@ =~= posv);
            assert(path@ == pathv);
        }
        spans.push((field_of(" ", mode), Paint::StatusAccent));
        spans.push((field_of(" ", head), Paint::Status));
        spans.push((field_of(bar, path), Paint::Status));
        spans.push((field_of(bar, position.as_str()), Paint::Status));
        spans.push((field_of(bar, summary.as_str()), Paint::Status));
        let ghost base = seq![
            (field(seq![' '], modev), Paint::StatusAccent),
            (field(seq![' '], head@), Paint::Status),
            (field(barv, pathv), Paint::Status),
            (field(barv, posv), Paint::Status),
            (field(barv, summary_spec(a.doc)), Paint::Status),
        ];
        proof {
            assert(runs_model(spans@) =~= base);
        }
        let ghost hunk_part = match hunk_position_spec(a.doc, a.cursor) {
            Some((at, total)) => seq![
                (field(barv + "hunk "@, crate::text::decimal_spec(at as nat) + "/"@ + crate::text::decimal_spec(total as nat)), Paint::Status),
            ],
            None => Seq::empty(),
        };
        if let Some((at, total)) = self.hunk_position() {
            let mut t: Vec<char> = Vec::new();
            push_decimal(&mut t, at);
            push_str(&mut t, "/");
            push_decimal(&mut t, total);
            let lead = joined_str(bar, "hunk ");
            spans.push((field_of(lead.as_str(), string_of(&t).as_str()), Paint::Status));
        }
        proof {
            assert(runs_model(spans@) =~= base + hunk_part);
        }
        let ghost find_part = if a.find.query@.len() > 0 {
            seq![(field(barv + "/"@, a.find.query@ + seq![' '] + crate::text::decimal_spec(a.find.matches@.len())), Paint::Status)]
        } else {
            Seq::empty()
        };
        if !self.find.query.as_str().is_empty() {
            let mut t: Vec<char> = Vec::new();
            push_str(&mut t, self.find.query.as_str());
            let ghost t1 = t@;
            t.push(' ');
            proof {
                assert(t@ =~= t1 + seq![' ']);
            }
            push_decimal(&mut t, self.find.matches.len());
            proof {
                assert(t@ =~= self.find.query@ + seq![' '] + crate::text::decimal_spec(self.find.matches@.len()));
            }
            let lead = joined_str(bar, "/");
            spans.push((field_of(lead.as_str(), string_of(&t).as_str()), Paint::Status));
        }
        proof {
            assert(runs_model(spans@) =~= base + hunk_part + find_part);
        }
        let ghost full_part = if a.full_context {
            seq![(barv + "whole file "@, Paint::Status)]
        } else {
            Seq::empty()
        };
        if self.full_context {
            spans.push((joined_str(bar, "whole file "), Paint::Status));
        }
        proof {
            assert(runs_model(spans@) =~= base + hunk_part + find_part + full_part);
        }
        let ghost qf_part = if a.quickfix@.len() > 0 {
            seq![
                (field(barv + "qf "@, crate::text::decimal_spec((a.quickfix_at + 1) as nat) + "/"@ + crate::text::decimal_spec(a.quickfix@.len())), Paint::Status),
            ]
        } else {
            Seq::empty()
        };
        if self.quickfix.len() > 0 {
            let mut t: Vec<char> = Vec::new();
            push_decimal(&mut t, self.quickfix_at + 1);
            push_str(&mut t, "/");
            push_decimal(&mut t, self.quickfix.len());
            let lead = joined_str(bar, "qf ");
            spans.push((field_of(lead.as_str(), string_of(&t).as_str()), Paint::Status));
        }
        proof {
            assert(runs_model(spans@) =~= base + hunk_part + find_part + full_part + qf_part);
        }
        spans.push((joined_str(bar, "? help "), Paint::Status));
        proof {
            assert(runs_model(spans@) =~= base + hunk_part + find_part + full_part + qf_part + seq![(barv + "? help "@, Paint::Status)]);
        }
        let ghost before_pending = runs_model(spans@);
        let pending = self.pending_label();
        if !pending.as_str().is_empty() {
            spans.push((field_of(bar, pending.as_str()), Paint::StatusAccent));
        }
        proof {
            let pend_part = if keys::render_all(a.pending@).len() > 0 {
                seq![(field(barv, keys::render_all(a.pending@)), Paint::StatusAccent)]
            } else {
                Seq::<(Seq<char>, Paint)>::empty()
            };
            assert(runs_model(spans@) =~= before_pending + pend_part);
            assert(runs_model(spans@) =~= status_spec(*self, head@));
        }
        Painted { spans, line: Some(Paint::Status) }
    }
}


proof fn lemma_step_back(at: int, len: int, forward: bool)
    requires
        0 <= at < len,
    ensures
        0 <= crate::tree::step_from(at, len, forward) < len,
        crate::tree::step_from(crate::tree::step_from(at, len, forward), len, !forward) == at,
{
    let m = at % len;
    assert(m == at) by {
        vstd::arithmetic::div_mod::lemma_small_mod(at as nat, len as nat);
    }
    let s = crate::tree::step_from(at, len, forward);
    assert(0 <= s < len);
    assert(s % len == s) by {
        vstd::arithmetic::div_mod::lemma_small_mod(s as nat, len as nat);
    }
}

proof fn lemma_went_keeps_quickfix(pre: App, post: App, t: TargetModel, e: Effect)
    requires
        went(pre, post, t, e),
    ensures
        post.quickfix == pre.quickfix,
        post.quickfix_at == pre.quickfix_at,
{
}

/// `]q` then `[q` (or the other way round) comes back to the entry the
/// quickfix list was on, and the list itself stays as it was.
pub proof fn quickfix_steps_undo_each_other(pre: App, mid: App, post: App, forward: bool, e1: Effect, e2: Effect)
    requires
        0 < pre.quickfix@.len() <= usize::MAX,
        pre.quickfix_at < pre.quickfix@.len(),
        quickfix_stepped(pre, mid, forward, e1),
        quickfix_stepped(mid, post, !forward, e2),
    ensures
        post.quickfix == pre.quickfix,
        post.quickfix_at == pre.quickfix_at,
{
    let n = pre.quickfix@.len();
    lemma_step_back(pre.quickfix_at as int, n as int, forward);
    let at = crate::tree::step_from(pre.quickfix_at as int, n as int, forward);
    assert forall|m: App, t: TargetModel, e: Effect| #[trigger] went(m, mid, t, e) implies mid.quickfix == m.quickfix
        && mid.quickfix_at == m.quickfix_at by {
        lemma_went_keeps_quickfix(m, mid, t, e);
    }
    assert(mid.quickfix == pre.quickfix && mid.quickfix_at == at);
    assert forall|m: App, t: TargetModel, e: Effect| #[trigger] went(m, post, t, e) implies post.quickfix == m.quickfix
        && post.quickfix_at == m.quickfix_at by {
        lemma_went_keeps_quickfix(m, post, t, e);
    }
}

/// `N` lands on the last match before the cursor, or wraps to the last
/// match; `n` lands on the first match past the cursor (past the row before
/// it, when the search was just entered), or wraps to the first. With the
/// matches in row order, that is the nearest match in that direction. With
/// no match the cursor stays.
pub proof fn search_steps_land_on_the_nearest_match(pre: App, post: App, forward: bool, from_cursor: bool)
    requires
        jumped(pre, post, forward, from_cursor),
        pre.find.matches@.len() <= usize::MAX,
    ensures
        ({
            let m = pre.find.matches@;
            let c = pre.cursor as int;
            let from = if from_cursor { sat_sub(c, 1) } else { c };
            &&& m.len() == 0 ==> post.cursor == pre.cursor
            &&& !forward && (exists|k: int| 0 <= k < m.len() && #[trigger] m[k] < c) ==> exists|j: int|
                0 <= j < m.len() && post.cursor == #[trigger] m[j] && post.find.at == j && m[j] < c
                    && forall|k: int| j < k < m.len() ==> m[k] >= c
            &&& !forward && m.len() > 0 && (forall|k: int| 0 <= k < m.len() ==> #[trigger] m[k] >= c) ==> post.cursor
                == m[m.len() - 1] && post.find.at == m.len() - 1
            &&& forward && (exists|k: int| 0 <= k < m.len() && #[trigger] m[k] > from) ==> exists|i: int|
                0 <= i < m.len() && post.cursor == #[trigger] m[i] && post.find.at == i && m[i] > from
                    && forall|k: int| 0 <= k < i ==> m[k] <= from
            &&& forward && m.len() > 0 && (forall|k: int| 0 <= k < m.len() ==> #[trigger] m[k] <= from) ==> post.cursor
                == m[0] && post.find.at == 0
            &&& (forall|a: int, b: int| 0 <= a < b < m.len() ==> m[a] < m[b]) && !forward && (exists|k: int|
                0 <= k < m.len() && #[trigger] m[k] < c) ==> post.cursor < c && forall|k: int|
                0 <= k < m.len() && #[trigger] m[k] < c ==> m[k] <= post.cursor
        }),
{
    let m = pre.find.matches@;
    let c = pre.cursor as int;
    let from = if from_cursor { sat_sub(c, 1) } else { c };
    if m.len() > 0 {
        let at = match_reached(m, pre.cursor, forward, from_cursor);
        diff::lemma_first_after(m, from as usize, 0);
        diff::lemma_last_before(m, pre.cursor, m.len() as int);
        assert(0 <= at < m.len());
        assert(post.cursor == m[at]);
        assert(post.find.at == at);
        if !forward && (exists|k: int| 0 <= k < m.len() && #[trigger] m[k] < c) {
            let k = choose|k: int| 0 <= k < m.len() && #[trigger] m[k] < c;
            assert(diff::last_before(m, pre.cursor, m.len() as int) >= 0);
            if forall|a: int, b: int| 0 <= a < b < m.len() ==> m[a] < m[b] {
                assert forall|k2: int| 0 <= k2 < m.len() && #[trigger] m[k2] < c implies m[k2] <= post.cursor by {
                    if k2 > at {
                        assert(m[k2] >= c);
                    } else if k2 < at {
                        assert(m[k2] < m[at]);
                    }
                }
            }
        }
        if forward && (exists|k: int| 0 <= k < m.len() && #[trigger] m[k] > from) {
            let k = choose|k: int| 0 <= k < m.len() && #[trigger] m[k] > from;
            assert(diff::first_after(m, from as usize, 0) < m.len());
        }
    }
}

/// `s` twice shows the sides as they were: old on the left again, or new.
pub proof fn swapping_twice_restores_the_sides(pre: App, mid: App, post: App, e1: Effect, e2: Effect)
    requires
        acted(pre, mid, Action::SwapSides, e1),
        acted(mid, post, Action::SwapSides, e2),
    ensures
        post == pre,
        e1 is Nothing && e2 is Nothing,
{
}

/// Whatever action runs, the tree pane stays between 14 and 90 columns wide
/// and the sideways scroll within `MAX_HSCROLL`; `<C-w>>` / `<C-w><` widen
/// and narrow by 4 and `l` / `h` scroll by `HSTEP`, clamped at those ends.
#[verifier::rlimit(50)]
pub proof fn widths_and_scroll_stay_in_bounds(pre: App, post: App, a: Action, e: Effect)
    requires
        14 <= pre.tree_width <= 90,
        pre.hscroll <= MAX_HSCROLL,
        acted(pre, post, a, e),
    ensures
        14 <= post.tree_width <= 90,
        post.hscroll <= MAX_HSCROLL,
        a == Action::WidenTree ==> post.tree_width == widened(pre.tree_width),
        a == Action::NarrowTree ==> post.tree_width == narrowed(pre.tree_width),
        a == Action::ScrollRight ==> post.hscroll == scrolled_right(pre.hscroll),
        a == Action::ScrollLeft ==> post.hscroll == sat_sub(pre.hscroll as int, HSTEP as int),
        a == Action::ScrollHome ==> post.hscroll == 0,
{
    assert forall|m: App, t: TargetModel, x: Effect| #[trigger] went(m, post, t, x) implies post.tree_width == m.tree_width
        && post.hscroll == m.hscroll by {}
}

/// `<leader>fr` after a picker was closed with `<Esc>` opens a picker of
/// the same kind with the same prompt (unless there is nothing for it to
/// list: no recent files, or no lines in the file on screen).
pub proof fn resume_reopens_the_closed_picker(
    pre: App,
    mid: App,
    post: App,
    p: Picker,
    key: Key,
    e1: Effect,
    e2: Effect,
)
    requires
        key.code == KeyCode::Esc,
        picker_keyed(pre, mid, p, key, e1),
        acted(mid, post, Action::PickResume, e2),
        p.kind_of() == Kind::Buffers || p.kind_of() == Kind::Lines ==> source_for(mid, p.kind_of()).len() > 0,
    ensures
        post.overlay matches Some(Overlay::Picker(q)) && q.kind_of() == p.kind_of() && q.prompt_text() == p.prompt_text(),
{
    let l = mid.last_picker->0;
    assert(source_for(forgot_picker(mid), l.kind) == source_for(mid, l.kind));
    let q = choose|q: Picker|
        fresh_picker(q, l.kind, title_for(forgot_picker(mid), l.kind), source_for(forgot_picker(mid), l.kind), l.prompt@)
            && #[trigger] live_refreshed(with_picker(forgot_picker(mid), q), post, e2);
    assert(with_picker(forgot_picker(mid), q).overlay == Some(Overlay::Picker(q)));
}

} // verus!
