//! Telescope-style floating picker.
//!
//! Two flavours share one widget. A *static* picker (files, buffers, lines)
//! holds its whole candidate set and fuzzy-filters it locally with nucleo. A
//! *live* picker (grep) re-queries its backend on every keystroke and shows the
//! results in backend order.
use vstd::prelude::*;
use crate::sort::{pair_leq, sort_pairs};
use crate::text::{chars_of, is_whitespace, is_ws, owned, str_eq, string_of, trim_end, trim_end_spec};
use nucleo_matcher::pattern::{CaseMatching, Normalization, Pattern};
use nucleo_matcher::{Config, Matcher, Utf32Str};

verus! {

/// What selecting an entry does.
#[derive(Debug)]
pub enum Target {
    /// Open this changed file.
    File(String),
    /// Open this file and put the cursor on a line of the new side.
    Location { path: String, line: usize },
    /// Jump to a row of the document already on screen.
    Row(usize),
}

/// A `Target` as mathematical values.
pub enum TargetModel {
    File(Seq<char>),
    Location { path: Seq<char>, line: nat },
    Row(nat),
}

impl View for Target {
    type V = TargetModel;

    open spec fn view(&self) -> TargetModel {
        match self {
            Target::File(p) => TargetModel::File(p@),
            Target::Location { path, line } => TargetModel::Location { path: path@, line: *line as nat },
            Target::Row(r) => TargetModel::Row(*r as nat),
        }
    }
}

impl Clone for Target {
    fn clone(&self) -> (r: Self)
        ensures
            r@ == self@,
    {
        match self {
            Target::File(p) => Target::File(p.clone()),
            Target::Location { path, line } => Target::Location { path: path.clone(), line: *line },
            Target::Row(r) => Target::Row(*r),
        }
    }
}

impl PartialEq for Target {
    fn eq(&self, other: &Self) -> (r: bool) {
        match (self, other) {
            (Target::File(a), Target::File(b)) => str_eq(a.as_str(), b.as_str()),
            (Target::Location { path: a, line: x }, Target::Location { path: b, line: y }) => str_eq(
                a.as_str(),
                b.as_str(),
            ) && *x == *y,
            (Target::Row(a), Target::Row(b)) => *a == *b,
            _ => false,
        }
    }
}

impl vstd::std_specs::cmp::PartialEqSpecImpl for Target {
    open spec fn obeys_eq_spec() -> bool {
        true
    }

    open spec fn eq_spec(&self, other: &Self) -> bool {
        self@ == other@
    }
}

impl Eq for Target {

}

#[derive(Debug)]
pub struct Candidate {
    /// The text that is fuzzy-matched and highlighted.
    pub display: String,
    /// Dimmed trailing context: a status badge, a line number, a path.
    pub detail: String,
    pub target: Target,
}

pub struct CandidateModel {
    pub display: Seq<char>,
    pub detail: Seq<char>,
    pub target: TargetModel,
}

impl View for Candidate {
    type V = CandidateModel;

    open spec fn view(&self) -> CandidateModel {
        CandidateModel { display: self.display@, detail: self.detail@, target: self.target@ }
    }
}

impl Clone for Candidate {
    fn clone(&self) -> (r: Self)
        ensures
            r@ == self@,
    {
        Candidate { display: self.display.clone(), detail: self.detail.clone(), target: self.target.clone() }
    }
}

#[derive(Debug)]
pub struct Item {
    pub candidate: Candidate,
    /// Char indices into `candidate.display` that the query matched.
    pub indices: Vec<u32>,
}

pub struct ItemModel {
    pub candidate: CandidateModel,
    pub indices: Seq<u32>,
}

impl View for Item {
    type V = ItemModel;

    open spec fn view(&self) -> ItemModel {
        ItemModel { candidate: self.candidate@, indices: self.indices@ }
    }
}

impl Clone for Item {
    fn clone(&self) -> (r: Self)
        ensures
            r@ == self@,
    {
        Item { candidate: self.candidate.clone(), indices: self.indices.clone() }
    }
}

pub open spec fn candidates_model(v: Seq<Candidate>) -> Seq<CandidateModel> {
    Seq::new(v.len(), |i: int| v[i]@)
}

pub open spec fn items_model(v: Seq<Item>) -> Seq<ItemModel> {
    Seq::new(v.len(), |i: int| v[i]@)
}

#[derive(Debug, Clone, Copy, PartialEq, Eq, Structural)]
pub enum Kind {
    Files,
    Buffers,
    Lines,
    Grep,
}

impl Kind {
    /// Live pickers ask their backend again on every keystroke.
    pub fn is_live(self) -> (r: bool)
        ensures
            r == (self == Kind::Grep),
    {
        match self {
            Kind::Grep => true,
            _ => false,
        }
    }
}

// ------------------------------------------------------------ matching

/// What nucleo's pattern matching gives for `prompt` against `display`:
/// the prompt parsed into words (smart case, smart normalization), matched
/// with the default configuration plus the bonus for path separators; the
/// summed score and the matched character positions of every word, in the
/// order the words produce them. `None` when some word does not match.
pub uninterp spec fn fuzzy_match_of(prompt: Seq<char>, display: Seq<char>) -> Option<(u32, Seq<u32>)>;

pub open spec fn match_model(m: Option<(u32, Vec<u32>)>) -> Option<(u32, Seq<u32>)> {
    match m {
        Some((s, ix)) => Some((s, ix@)),
        None => None,
    }
}

/// `nucleo_matcher::pattern::Pattern::indices` for each of `displays`, with
/// the pattern `Pattern::parse(prompt, CaseMatching::Smart,
/// Normalization::Smart)` and one `Matcher` configured as
/// `Config::DEFAULT` with `set_match_paths`. Its contract claims only that
/// each result is the value `fuzzy_match_of` names for that prompt and
/// display; nothing about scores or positions themselves is stated.
#[verifier::external_body]
fn fuzzy_match_all(prompt: &str, displays: &Vec<String>) -> (r: Vec<Option<(u32, Vec<u32>)>>)
    ensures
        r@.len() == displays@.len(),
        forall|i: int| 0 <= i < r@.len() ==> match_model(#[trigger] r@[i]) == fuzzy_match_of(prompt@, displays@[i]@),
{
    let mut config = Config::DEFAULT;
    config.set_match_paths();
    let mut matcher = Matcher::new(config);
    let pattern = Pattern::parse(prompt, CaseMatching::Smart, Normalization::Smart);
    let mut buf = Vec::new();
    let mut out = Vec::new();
    for d in displays {
        let mut indices = Vec::new();
        let score = pattern.indices(Utf32Str::new(d, &mut buf), &mut matcher, &mut indices);
        out.push(score.map(|s| (s, indices)));
    }
    out
}

pub open spec fn strictly_increasing(s: Seq<u32>) -> bool {
    forall|i: int, j: int| 0 <= i < j < s.len() ==> s[i] < s[j]
}

/// Match positions for highlighting: sorted, each once.
pub open spec fn clean_positions(r: Seq<u32>, s: Seq<u32>) -> bool {
    &&& strictly_increasing(r)
    &&& forall|x: u32| r.contains(x) <==> s.contains(x)
}

/// `v` sorted with duplicates removed.
fn sort_dedup(v: &Vec<u32>) -> (r: Vec<u32>)
    ensures
        clean_positions(r@, v@),
{
    let mut r: Vec<u32> = Vec::new();
    let mut i: usize = 0;
    while i < v.len()
        invariant
            i <= v@.len(),
            clean_positions(r@, v@.take(i as int)),
        decreases v@.len() - i,
    {
        let x = v[i];
        let mut p: usize = 0;
        while p < r.len() && r[p] < x
            invariant
                p <= r@.len(),
                forall|k: int| 0 <= k < p ==> r@[k] < x,
            decreases r@.len() - p,
        {
            p = p + 1;
        }
        let ghost before = r@;
        if p < r.len() && r[p] == x {
        } else {
            r.insert(p, x);
            proof {
                assert forall|a: int, b: int| 0 <= a < b < r@.len() implies r@[a] < r@[b] by {
                    if b < p {
                        assert(r@[a] == before[a]);
                        assert(r@[b] == before[b]);
                    } else if b == p {
                        assert(r@[a] == before[a]);
                    } else if a < p {
                        assert(r@[a] == before[a]);
                        assert(r@[b] == before[b - 1]);
                        assert(before[p as int] >= x);
                        assert(before[p as int] != x);
                        if b - 1 > p {
                            assert(before[p as int] < before[b - 1]);
                        }
                    } else if a == p {
                        assert(r@[b] == before[b - 1]);
                        if b - 1 > p {
                            assert(before[p as int] < before[b - 1]);
                        }
                        assert(before[p as int] >= x);
                        assert(before[p as int] != x);
                    } else {
                        assert(r@[a] == before[a - 1]);
                        assert(r@[b] == before[b - 1]);
                    }
                }
            }
        }
        proof {
            let w0 = v@.take(i as int);
            let w1 = v@.take(i + 1);
            assert(w1 =~= w0.push(x));
            assert forall|y: u32| r@.contains(y) <==> w1.contains(y) by {
                if r@.contains(y) {
                    let k = choose|k: int| 0 <= k < r@.len() && #[trigger] r@[k] == y;
                    if y != x {
                        if k < p {
                            assert(before[k] == y);
                        } else if before.len() < r@.len() {
                            assert(before[k - 1] == y);
                        } else {
                            assert(before[k] == y);
                        }
                        assert(before.contains(y));
                        let j = choose|j: int| 0 <= j < w0.len() && #[trigger] w0[j] == y;
                        assert(w1[j] == y);
                    } else {
                        assert(w1[i as int] == y);
                    }
                }
                if w1.contains(y) {
                    let j = choose|j: int| 0 <= j < w1.len() && #[trigger] w1[j] == y;
                    if j < i {
                        assert(w0[j] == y);
                        assert(before.contains(y));
                        let k = choose|k: int| 0 <= k < before.len() && #[trigger] before[k] == y;
                        if before.len() < r@.len() {
                            if k < p {
                                assert(r@[k] == y);
                            } else {
                                assert(r@[k + 1] == y);
                            }
                        } else {
                            assert(r@[k] == y);
                        }
                    } else {
                        assert(r@[p as int] == y);
                    }
                }
            }
        }
        i = i + 1;
    }
    proof {
        assert(v@.take(i as int) =~= v@);
    }
    r
}

/// The scoring keys of the candidates that match `prompt`, in source order:
/// the distance of the score below the largest one, then the position in the
/// source, so that sorting them puts the best match first and keeps source
/// order among equal scores.
pub open spec fn match_keys(prompt: Seq<char>, src: Seq<CandidateModel>) -> Seq<(usize, usize)>
    decreases src.len(),
{
    if src.len() == 0 {
        Seq::empty()
    } else {
        let before = match_keys(prompt, src.drop_last());
        match fuzzy_match_of(prompt, src.last().display) {
            Some((score, _)) => before.push(((u32::MAX - score) as usize, (src.len() - 1) as usize)),
            None => before,
        }
    }
}

/// The items a static picker lists for `prompt`: everything for an empty
/// prompt; otherwise the matches, highest score first and ties in source
/// order, each with its cleaned match positions.
pub open spec fn filtered(prompt: Seq<char>, src: Seq<CandidateModel>, items: Seq<ItemModel>) -> bool {
    if prompt.len() == 0 {
        items == Seq::new(src.len(), |i: int| ItemModel { candidate: src[i], indices: Seq::empty() })
    } else {
        let order = match_keys(prompt, src).sort_by(pair_leq());
        &&& items.len() == order.len()
        &&& forall|k: int| 0 <= k < items.len() ==> {
            let i = order[k].1 as int;
            &&& (#[trigger] items[k]).candidate == src[i]
            &&& clean_positions(items[k].indices, (fuzzy_match_of(prompt, src[i].display)->0).1)
        }
    }
}

proof fn lemma_match_keys(prompt: Seq<char>, src: Seq<CandidateModel>)
    requires
        src.len() <= usize::MAX,
    ensures
        forall|x: int| 0 <= x < match_keys(prompt, src).len() ==> {
            let e = #[trigger] match_keys(prompt, src)[x];
            &&& e.1 < src.len()
            &&& fuzzy_match_of(prompt, src[e.1 as int].display) is Some
        },
    decreases src.len(),
{
    if src.len() > 0 {
        lemma_match_keys(prompt, src.drop_last());
        let before = match_keys(prompt, src.drop_last());
        let all = match_keys(prompt, src);
        assert forall|x: int| 0 <= x < all.len() implies (#[trigger] all[x]).1 < src.len()
            && fuzzy_match_of(prompt, src[all[x].1 as int].display) is Some by {
            if x < before.len() {
                assert(all[x] == before[x]);
                assert(src[before[x].1 as int] == src.drop_last()[before[x].1 as int]);
            } else {
                assert(all[x].1 == src.len() - 1);
            }
        }
    }
}

// ------------------------------------------------------------ the picker

pub struct Picker {
    pub kind: Kind,
    pub title: String,
    pub prompt: String,
    pub selected: usize,
    /// Scroll offset of the results list.
    pub offset: usize,
    items: Vec<Item>,
    /// Unfiltered candidates; empty for live pickers.
    source: Vec<Candidate>,
}

/// The selection kept in range of `len` items.
pub open spec fn clamped(sel: usize, len: nat) -> usize {
    if sel < len {
        sel
    } else if len == 0 {
        0
    } else {
        (len - 1) as usize
    }
}

/// The index of the last separator (whitespace or `/`) in `s`, if any.
pub open spec fn last_sep(s: Seq<char>, j: int) -> Option<int>
    decreases j,
{
    if j <= 0 {
        None
    } else if is_ws(s[j - 1]) || s[j - 1] == '/' {
        Some(j - 1)
    } else {
        last_sep(s, j - 1)
    }
}

/// `<C-w>` on a prompt: the trailing whitespace and the word before it go,
/// back to just after the previous separator.
pub open spec fn delete_word_spec(p: Seq<char>) -> Seq<char> {
    let t = trim_end_spec(p);
    match last_sep(t, t.len() as int) {
        Some(j) => p.take(j + 1),
        None => Seq::empty(),
    }
}

impl Picker {
    pub closed spec fn item_list(&self) -> Seq<ItemModel> {
        items_model(self.items@)
    }

    pub closed spec fn sources(&self) -> Seq<CandidateModel> {
        candidates_model(self.source@)
    }

    pub closed spec fn kind_of(&self) -> Kind {
        self.kind
    }

    pub closed spec fn prompt_text(&self) -> Seq<char> {
        self.prompt@
    }

    pub closed spec fn title_text(&self) -> Seq<char> {
        self.title@
    }

    pub closed spec fn sel(&self) -> usize {
        self.selected
    }

    pub closed spec fn scroll(&self) -> usize {
        self.offset
    }

    /// After the prompt or source changed: a static picker lists what the
    /// prompt selects, with the selection kept in range.
    pub closed spec fn refiltered(pre: Picker, post: Picker) -> bool {
        &&& post.kind == pre.kind
        &&& post.title@ == pre.title@
        &&& post.prompt@ == pre.prompt@
        &&& post.offset == pre.offset
        &&& candidates_model(post.source@) == candidates_model(pre.source@)
        &&& filtered(pre.prompt@, candidates_model(pre.source@), items_model(post.items@))
        &&& post.selected == clamped(pre.selected, post.items@.len())
    }

    /// A prompt edit: the prompt becomes `prompt`, the selection and scroll
    /// go back to the top, and a static picker filters again.
    pub closed spec fn prompt_changed(pre: Picker, post: Picker, prompt: Seq<char>) -> bool {
        &&& post.kind == pre.kind
        &&& post.title@ == pre.title@
        &&& post.prompt@ == prompt
        &&& post.offset == 0
        &&& candidates_model(post.source@) == candidates_model(pre.source@)
        &&& if pre.kind == Kind::Grep {
            &&& items_model(post.items@) == items_model(pre.items@)
            &&& post.selected == 0
        } else {
            &&& filtered(prompt, candidates_model(pre.source@), items_model(post.items@))
            &&& post.selected == 0
        }
    }

    pub fn new(kind: Kind, title: &str, source: Vec<Candidate>) -> (p: Self)
        ensures
            p.kind_of() == kind,
            p.title_text() == title@,
            p.prompt_text() == Seq::<char>::empty(),
            p.sel() == 0,
            p.scroll() == 0,
            p.sources() == candidates_model(source@),
            kind == Kind::Grep ==> p.item_list() == Seq::<ItemModel>::empty(),
            kind != Kind::Grep ==> filtered(Seq::empty(), candidates_model(source@), p.item_list()),
    {
        let mut p = Picker {
            kind,
            title: owned(title),
            prompt: String::new(),
            selected: 0,
            offset: 0,
            items: Vec::new(),
            source,
        };
        if !kind.is_live() {
            p.refilter();
        }
        p
    }

    /// Seed the prompt, as `<leader>fw` does with the word under the cursor.
    pub fn with_prompt(self, prompt: &str) -> (p: Self)
        ensures
            p.kind_of() == self.kind_of(),
            p.title_text() == self.title_text(),
            p.prompt_text() == prompt@,
            p.scroll() == self.scroll(),
            p.sources() == self.sources(),
            self.kind_of() == Kind::Grep ==> p.item_list() == self.item_list() && p.sel() == self.sel(),
            self.kind_of() != Kind::Grep ==> filtered(prompt@, self.sources(), p.item_list()) && p.sel() == clamped(
                self.sel(),
                p.item_list().len(),
            ),
    {
        let mut p = self;
        p.prompt = owned(prompt);
        if !p.kind.is_live() {
            p.refilter();
        }
        p
    }

    pub fn kind(&self) -> (r: Kind)
        ensures
            r == self.kind_of(),
    {
        self.kind
    }

    pub fn prompt_str(&self) -> (r: &str)
        ensures
            r@ == self.prompt_text(),
    {
        self.prompt.as_str()
    }

    /// Index of the selected item.
    pub fn selection(&self) -> (r: usize)
        ensures
            r == self.sel(),
    {
        self.selected
    }

    /// Whether `<C-w>` can cut the prompt: the separator it cuts after, if
    /// any, is a single byte wide.
    pub fn can_delete_word(&self) -> (r: bool)
        ensures
            r == ({
                let t = trim_end_spec(self.prompt_text());
                last_sep(t, t.len() as int) matches Some(j) ==> (t[j] as int) < 0x80
            }),
    {
        let trimmed = chars_of(trim_end(self.prompt.as_str()));
        let mut j: usize = trimmed.len();
        while j > 0 && !(is_whitespace(trimmed[j - 1]) || trimmed[j - 1] == '/')
            invariant
                j <= trimmed@.len(),
                trimmed@ == trim_end_spec(self.prompt@),
                last_sep(trimmed@, j as int) == last_sep(trimmed@, trimmed@.len() as int),
            decreases j,
        {
            j = j - 1;
        }
        if j > 0 {
            (trimmed[j - 1] as u32) < 0x80
        } else {
            true
        }
    }

    pub fn items(&self) -> (r: &[Item])
        ensures
            items_model(r@) == self.item_list(),
    {
        self.items.as_slice()
    }

    pub fn selected_target(&self) -> (r: Option<&Target>)
        ensures
            match r {
                Some(t) => self.sel() < self.item_list().len() && t@ == self.item_list()[self.sel() as int].candidate.target,
                None => self.sel() >= self.item_list().len(),
            },
    {
        if self.selected < self.items.len() {
            Some(&self.items[self.selected].candidate.target)
        } else {
            None
        }
    }

    /// Every currently listed target -- what `<C-q>` sends to the quickfix list.
    pub fn all_targets(&self) -> (r: Vec<Target>)
        ensures
            r@.len() == self.item_list().len(),
            forall|i: int| 0 <= i < r@.len() ==> (#[trigger] r@[i])@ == self.item_list()[i].candidate.target,
    {
        let mut out: Vec<Target> = Vec::new();
        let mut i: usize = 0;
        while i < self.items.len()
            invariant
                i <= self.items@.len(),
                out@.len() == i,
                forall|k: int| 0 <= k < i ==> (#[trigger] out@[k])@ == self.items@[k].candidate.target@,
            decreases self.items@.len() - i,
        {
            out.push(self.items[i].candidate.target.clone());
            i = i + 1;
        }
        out
    }

    /// Replace the results of a live picker.
    pub fn set_items(&mut self, candidates: Vec<Candidate>)
        ensures
            final(self).item_list() == Seq::new(
                candidates@.len(),
                |i: int| ItemModel { candidate: candidates@[i]@, indices: Seq::empty() },
            ),
            final(self).sel() == clamped(old(self).sel(), candidates@.len()),
            final(self).kind_of() == old(self).kind_of(),
            final(self).title_text() == old(self).title_text(),
            final(self).prompt_text() == old(self).prompt_text(),
            final(self).scroll() == old(self).scroll(),
            final(self).sources() == old(self).sources(),
    {
        let mut items: Vec<Item> = Vec::new();
        let ghost cs = candidates@;
        let mut rest = candidates;
        proof {
            assert(rest@ =~= cs.skip(0));
        }
        while rest.len() > 0
            invariant
                items@.len() + rest@.len() == cs.len(),
                rest@ == cs.skip(items@.len() as int),
                forall|k: int| 0 <= k < items@.len() ==> (#[trigger] items@[k])@ == (ItemModel { candidate: cs[k]@, indices: Seq::empty() }),
            decreases rest@.len(),
        {
            let ghost n: int = items@.len() as int;
            let candidate = rest.remove(0);
            proof {
                assert(candidate == cs[n as int]);
                assert(rest@ =~= cs.skip(n + 1 as int));
            }
            items.push(Item { candidate, indices: Vec::new() });
        }
        proof {
            assert(items_model(items@) =~= Seq::new(cs.len(), |i: int| ItemModel { candidate: cs[i]@, indices: Seq::empty() }));
        }
        self.items = items;
        self.clamp();
    }

    pub fn insert(&mut self, c: char)
        ensures
            Picker::prompt_changed(*old(self), *final(self), old(self).prompt_text().push(c)),
            final(self).kind_of() == old(self).kind_of(),
            final(self).prompt_text() == old(self).prompt_text().push(c),
    {
        let mut v = chars_of(self.prompt.as_str());
        v.push(c);
        self.prompt = string_of(&v);
        self.on_prompt_change();
    }

    pub fn backspace(&mut self)
        ensures
            Picker::prompt_changed(
                *old(self),
                *final(self),
                if old(self).prompt_text().len() == 0 {
                    Seq::<char>::empty()
                } else {
                    old(self).prompt_text().drop_last()
                },
            ),
    {
        let mut v = chars_of(self.prompt.as_str());
        v.pop();
        proof {
            if self.prompt@.len() == 0 {
                assert(v@ =~= Seq::<char>::empty());
            }
        }
        self.prompt = string_of(&v);
        self.on_prompt_change();
    }

    /// `<C-u>`: the user's telescope config frees this key to clear the prompt.
    pub fn clear_prompt(&mut self)
        ensures
            Picker::prompt_changed(*old(self), *final(self), Seq::empty()),
    {
        self.prompt = String::new();
        self.on_prompt_change();
    }

    /// `<C-w>`: delete the word before the cursor, as readline does.
    pub fn delete_word(&mut self)
        requires
            ({
                let t = trim_end_spec(old(self).prompt_text());
                last_sep(t, t.len() as int) matches Some(j) ==> (t[j] as int) < 0x80
            }),
        ensures
            Picker::prompt_changed(*old(self), *final(self), delete_word_spec(old(self).prompt_text())),
    {
        let trimmed = chars_of(trim_end(self.prompt.as_str()));
        let mut j: usize = trimmed.len();
        while j > 0 && !(is_whitespace(trimmed[j - 1]) || trimmed[j - 1] == '/')
            invariant
                j <= trimmed@.len(),
                trimmed@ == trim_end_spec(self.prompt@),
                last_sep(trimmed@, j as int) == last_sep(trimmed@, trimmed@.len() as int),
            decreases j,
        {
            j = j - 1;
        }
        let all = chars_of(self.prompt.as_str());
        let mut kept: Vec<char> = Vec::new();
        if j > 0 {
            proof {
                crate::text::lemma_back_ws_bounds(self.prompt@, self.prompt@.len() as int);
            }
            let mut k: usize = 0;
            while k < j
                invariant
                    j <= all@.len(),
                    k <= j,
                    kept@ == all@.take(k as int),
                decreases j - k,
            {
                kept.push(all[k]);
                proof {
                    assert(kept@ =~= all@.take(k + 1));
                }
                k = k + 1;
            }
        }
        proof {
            if j == 0 {
                assert(kept@ =~= Seq::<char>::empty());
            }
        }
        self.prompt = string_of(&kept);
        self.on_prompt_change();
    }

    fn on_prompt_change(&mut self)
        ensures
            Picker::prompt_changed(*old(self), *final(self), old(self).prompt@),
    {
        self.selected = 0;
        self.offset = 0;
        if !self.kind.is_live() {
            self.refilter();
        }
    }

    /// Move the selection by `delta`, wrapping at both ends as telescope does.
    pub fn move_selection(&mut self, delta: isize)
        requires
            old(self).sel() <= isize::MAX,
            isize::MIN <= old(self).sel() + delta <= isize::MAX,
        ensures
            old(self).item_list().len() == 0 ==> final(self).sel() == old(self).sel(),
            old(self).item_list().len() > 0 ==> final(self).sel() == (old(self).sel() + delta) % (old(self).item_list().len() as int),
            final(self).item_list() == old(self).item_list(),
            final(self).kind_of() == old(self).kind_of(),
            final(self).title_text() == old(self).title_text(),
            final(self).prompt_text() == old(self).prompt_text(),
            final(self).scroll() == old(self).scroll(),
            final(self).sources() == old(self).sources(),
    {
        if self.items.len() == 0 {
            return;
        }
        let len = self.items.len();
        let x: i128 = self.selected as i128 + delta as i128;
        let l: i128 = len as i128;
        let r: i128 = if x >= 0 {
            x % l
        } else {
            let m = (-x) % l;
            if m == 0 {
                0
            } else {
                l - m
            }
        };
        proof {
            if x < 0 {
                let xi: int = x as int;
                let li: int = l as int;
                let m: int = (-xi) % li;
                let q0: int = (-xi) / li;
                vstd::arithmetic::div_mod::lemma_fundamental_div_mod(-xi, li);
                assert(0 <= m < li);
                assert(-xi == li * q0 + m);
                if m == 0 {
                    assert(xi == (-q0) * li + 0) by (nonlinear_arith)
                        requires
                            -xi == li * q0 + m,
                            m == 0,
                    {}
                    vstd::arithmetic::div_mod::lemma_fundamental_div_mod_converse(xi, li, -q0, 0);
                } else {
                    assert(xi == (-q0 - 1) * li + (li - m)) by (nonlinear_arith)
                        requires
                            -xi == li * q0 + m,
                    {}
                    vstd::arithmetic::div_mod::lemma_fundamental_div_mod_converse(xi, li, -q0 - 1, li - m);
                }
            }
        }
        self.selected = r as usize;
    }

    fn clamp(&mut self)
        ensures
            final(self).selected == clamped(old(self).selected, old(self).items@.len()),
            final(self).items@ == old(self).items@,
            final(self).kind == old(self).kind,
            final(self).title@ == old(self).title@,
            final(self).prompt@ == old(self).prompt@,
            final(self).offset == old(self).offset,
            final(self).source@ == old(self).source@,
    {
        if self.selected >= self.items.len() {
            self.selected = if self.items.len() == 0 {
                0
            } else {
                self.items.len() - 1
            };
        }
    }

    /// Keep the selected row inside a window `height` rows tall.
    pub fn scroll_into_view(&mut self, height: usize)
        requires
            height > 0 ==> old(self).scroll() + height <= usize::MAX,
        ensures
            final(self).scroll() == (if height == 0 {
                old(self).scroll()
            } else if old(self).sel() < old(self).scroll() {
                old(self).sel()
            } else if old(self).sel() >= old(self).scroll() + height {
                (old(self).sel() + 1 - height) as usize
            } else {
                old(self).scroll()
            }),
            final(self).sel() == old(self).sel(),
            final(self).item_list() == old(self).item_list(),
            final(self).kind_of() == old(self).kind_of(),
            final(self).title_text() == old(self).title_text(),
            final(self).prompt_text() == old(self).prompt_text(),
            final(self).sources() == old(self).sources(),
    {
        if height == 0 {
            return;
        }
        if self.selected < self.offset {
            self.offset = self.selected;
        } else if self.selected >= self.offset + height {
            self.offset = self.selected - height + 1;
        }
    }

    fn refilter(&mut self)
        ensures
            Picker::refiltered(*old(self), *final(self)),
    {
        let ghost src = candidates_model(self.source@);
        if self.prompt.as_str().is_empty() {
            let mut items: Vec<Item> = Vec::new();
            let mut i: usize = 0;
            while i < self.source.len()
                invariant
                    src == candidates_model(self.source@),
                    i <= self.source@.len(),
                    items@.len() == i,
                    forall|k: int| 0 <= k < i ==> (#[trigger] items@[k])@ == (ItemModel { candidate: src[k], indices: Seq::empty() }),
                decreases self.source@.len() - i,
            {
                items.push(Item { candidate: self.source[i].clone(), indices: Vec::new() });
                i = i + 1;
            }
            proof {
                assert(items_model(items@) =~= Seq::new(src.len(), |k: int| ItemModel { candidate: src[k], indices: Seq::empty() }));
            }
            self.items = items;
            self.clamp();
            return;
        }
        let mut displays: Vec<String> = Vec::new();
        let mut i: usize = 0;
        while i < self.source.len()
            invariant
                src == candidates_model(self.source@),
                i <= self.source@.len(),
                displays@.len() == i,
                forall|k: int| 0 <= k < i ==> (#[trigger] displays@[k])@ == src[k].display,
            decreases self.source@.len() - i,
        {
            displays.push(self.source[i].display.clone());
            i = i + 1;
        }
        let results = fuzzy_match_all(self.prompt.as_str(), &displays);
        let ghost prompt = self.prompt@;
        // Highest score first; ties keep source order so the list is stable.
        let mut keys: Vec<(usize, usize)> = Vec::new();
        let mut i: usize = 0;
        proof {
            assert(src.take(0) =~= Seq::<CandidateModel>::empty());
        }
        while i < results.len()
            invariant
                src == candidates_model(self.source@),
                results@.len() == src.len(),
                prompt == self.prompt@,
                forall|k: int| 0 <= k < results@.len() ==> match_model(#[trigger] results@[k]) == fuzzy_match_of(prompt, src[k].display),
                i <= results@.len(),
                keys@ == match_keys(prompt, src.take(i as int)),
            decreases results@.len() - i,
        {
            proof {
                assert(src.take(i + 1).drop_last() =~= src.take(i as int));
                assert(src.take(i + 1).last() == src[i as int]);
            }
            match &results[i] {
                Some((score, _)) => {
                    keys.push(((u32::MAX - *score) as usize, i));
                },
                None => {},
            }
            i = i + 1;
        }
        proof {
            assert(src.take(i as int) =~= src);
        }
        let order = sort_pairs(&keys);
        let ghost ord = match_keys(prompt, src).sort_by(pair_leq());
        proof {
            lemma_match_keys(prompt, src);
            keys@.lemma_sort_by_ensures(pair_leq());
            assert forall|x: int| 0 <= x < ord.len() implies (#[trigger] ord[x]).1 < src.len() && fuzzy_match_of(prompt, src[ord[x].1 as int].display) is Some by {
                assert(ord.contains(ord[x]));
                assert(keys@.contains(ord[x]));
                let y = choose|y: int| 0 <= y < keys@.len() && keys@[y] == ord[x];
            }
        }
        let mut items: Vec<Item> = Vec::new();
        let mut k: usize = 0;
        while k < order.len()
            invariant
                src == candidates_model(self.source@),
                results@.len() == src.len(),
                prompt == self.prompt@,
                forall|x: int| 0 <= x < results@.len() ==> match_model(#[trigger] results@[x]) == fuzzy_match_of(prompt, src[x].display),
                order@ == ord,
                forall|x: int| 0 <= x < ord.len() ==> (#[trigger] ord[x]).1 < src.len() && fuzzy_match_of(prompt, src[ord[x].1 as int].display) is Some,
                k <= order@.len(),
                items@.len() == k,
                forall|x: int| 0 <= x < k ==> {
                    let j = ord[x].1 as int;
                    &&& (#[trigger] items@[x])@.candidate == src[j]
                    &&& clean_positions(items@[x]@.indices, (fuzzy_match_of(prompt, src[j].display)->0).1)
                },
            decreases order@.len() - k,
        {
            let j = order[k].1;
            assert(ord[k as int].1 < src.len());
            let indices = match &results[j] {
                Some((_, ix)) => sort_dedup(ix),
                None => Vec::new(),
            };
            items.push(Item { candidate: self.source[j].clone(), indices });
            k = k + 1;
        }
        self.items = items;
        self.clamp();
    }
}

// ------------------------------------------------------------------- laws

proof fn lemma_match_keys_increasing(prompt: Seq<char>, src: Seq<CandidateModel>)
    requires
        src.len() <= usize::MAX,
    ensures
        forall|a: int, b: int| 0 <= a < b < match_keys(prompt, src).len()
            ==> (#[trigger] match_keys(prompt, src)[a]).1 < (#[trigger] match_keys(prompt, src)[b]).1,
    decreases src.len(),
{
    if src.len() > 0 {
        lemma_match_keys_increasing(prompt, src.drop_last());
        lemma_match_keys(prompt, src.drop_last());
        let before = match_keys(prompt, src.drop_last());
        let all = match_keys(prompt, src);
        assert forall|a: int, b: int| 0 <= a < b < all.len() implies (#[trigger] all[a]).1 < (#[trigger] all[b]).1 by {
            assert(all[a] == before[a]);
            if b < before.len() {
                assert(all[b] == before[b]);
            } else {
                assert(all[b].1 == src.len() - 1);
            }
        }
    }
}

/// A static picker lists its matches best score first, and matches with
/// equal scores in the order of the source: the list is stable.
pub proof fn matches_rank_by_score(prompt: Seq<char>, src: Seq<CandidateModel>)
    requires
        src.len() <= usize::MAX,
    ensures
        ({
            let order = match_keys(prompt, src).sort_by(pair_leq());
            forall|k: int, l: int| 0 <= k < l < order.len() ==> {
                let i = (#[trigger] order[k]).1 as int;
                let j = (#[trigger] order[l]).1 as int;
                let si = (fuzzy_match_of(prompt, src[i].display)->0).0;
                let sj = (fuzzy_match_of(prompt, src[j].display)->0).0;
                si > sj || (si == sj && i < j)
            }
        }),
{
    let keys = match_keys(prompt, src);
    let order = keys.sort_by(pair_leq());
    keys.lemma_sort_by_ensures(pair_leq());
    lemma_match_keys(prompt, src);
    lemma_match_keys_increasing(prompt, src);
    lemma_match_keys_scores(prompt, src);
    assert(keys.no_duplicates()) by {
        assert forall|a: int, b: int| 0 <= a < keys.len() && 0 <= b < keys.len() && a != b implies keys[a] != keys[b] by {
            if a < b {
                assert(keys[a].1 < keys[b].1);
            } else {
                assert(keys[b].1 < keys[a].1);
            }
        }
    }
    keys.lemma_multiset_has_no_duplicates();
    order.lemma_multiset_has_no_duplicates_conv();
    assert forall|k: int, l: int| 0 <= k < l < order.len() implies {
        let i = (#[trigger] order[k]).1 as int;
        let j = (#[trigger] order[l]).1 as int;
        let si = (fuzzy_match_of(prompt, src[i].display)->0).0;
        let sj = (fuzzy_match_of(prompt, src[j].display)->0).0;
        si > sj || (si == sj && i < j)
    } by {
        assert(pair_leq()(order[k], order[l]));
        assert(order.contains(order[k]));
        assert(order.contains(order[l]));
        let a = choose|a: int| 0 <= a < keys.len() && keys[a] == order[k];
        let b = choose|b: int| 0 <= b < keys.len() && keys[b] == order[l];
        assert(order[k] != order[l]);
    }
}

proof fn lemma_match_keys_scores(prompt: Seq<char>, src: Seq<CandidateModel>)
    requires
        src.len() <= usize::MAX,
    ensures
        forall|x: int| 0 <= x < match_keys(prompt, src).len() ==> {
            let e = #[trigger] match_keys(prompt, src)[x];
            e.0 == u32::MAX - (fuzzy_match_of(prompt, src[e.1 as int].display)->0).0
        },
    decreases src.len(),
{
    if src.len() > 0 {
        lemma_match_keys_scores(prompt, src.drop_last());
        lemma_match_keys(prompt, src.drop_last());
        let before = match_keys(prompt, src.drop_last());
        let all = match_keys(prompt, src);
        assert forall|x: int| 0 <= x < all.len() implies {
            let e = #[trigger] all[x];
            e.0 == u32::MAX - (fuzzy_match_of(prompt, src[e.1 as int].display)->0).0
        } by {
            if x < before.len() {
                assert(all[x] == before[x]);
                assert(src[before[x].1 as int] == src.drop_last()[before[x].1 as int]);
            } else {
                assert(all[x].1 == src.len() - 1);
            }
        }
    }
}

/// Clearing the prompt of a static picker lists every candidate again.
pub proof fn clearing_the_prompt_lists_everything(pre: Picker, post: Picker)
    requires
        Picker::prompt_changed(pre, post, Seq::empty()),
        pre.kind_of() != Kind::Grep,
    ensures
        post.item_list() == Seq::new(
            pre.sources().len(),
            |i: int| ItemModel { candidate: pre.sources()[i], indices: Seq::empty() },
        ),
{
}

/// Moving the selection down and then up again returns to where it was;
/// moving past either end wraps to the other.
pub proof fn selection_moves_undo_each_other(sel: int, len: int)
    requires
        0 <= sel < len,
    ensures
        ((sel + 1) % len + (-1)) % len == sel,
        (len - 1 + 1) % len == 0,
        (0 + (-1)) % len == len - 1,
{
    vstd::arithmetic::div_mod::lemma_mod_self_0(len);
    vstd::arithmetic::div_mod::lemma_small_mod(sel as nat, len as nat);
    if sel + 1 < len {
        vstd::arithmetic::div_mod::lemma_small_mod((sel + 1) as nat, len as nat);
    }
    assert((0 + (-1)) % len == len - 1) by (nonlinear_arith)
        requires
            len > 0,
    {
        assert(-1 == (-1) * len + (len - 1));
    }
}

/// After scrolling into view the selected row lies inside the window.
pub proof fn scrolling_keeps_the_selection_visible(sel: int, offset: int, height: int)
    requires
        0 <= sel,
        0 <= offset,
        height > 0,
    ensures
        ({
            let o = if sel < offset {
                sel
            } else if sel >= offset + height {
                sel + 1 - height
            } else {
                offset
            };
            o <= sel < o + height
        }),
{
}

} // verus!
