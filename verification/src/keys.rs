//! Neovim-style multi-key bindings.
//!
//! Bindings are written with the same notation as `vim.keymap.set`, so what is
//! in the tables below reads like an nvim config. Resolution follows nvim's
//! rules: a sequence that is both a complete mapping and the prefix of a longer
//! one waits for the next key, and falls back to the shorter mapping if that
//! key does not extend it. That is what lets `<Space>` toggle a tree node while
//! still serving as the leader.
//!
//! Keys are the terminal's key codes and modifier bits, held as plain values;
//! the terminal layer converts its events into them.
use vstd::prelude::*;
use crate::text::{chars_of, decimal_spec, first_index_of, lemma_first_index_of, push_decimal, push_str, string_of};

verus! {

/// A media key.
#[derive(Debug, Clone, Copy, PartialEq, Eq, Hash, Structural)]
pub enum MediaKeyCode {
    Play,
    Pause,
    PlayPause,
    Reverse,
    Stop,
    FastForward,
    Rewind,
    TrackNext,
    TrackPrevious,
    Record,
    LowerVolume,
    RaiseVolume,
    MuteVolume,
}

/// A modifier key pressed on its own.
#[derive(Debug, Clone, Copy, PartialEq, Eq, Hash, Structural)]
pub enum ModifierKeyCode {
    LeftShift,
    LeftControl,
    LeftAlt,
    LeftSuper,
    LeftHyper,
    LeftMeta,
    RightShift,
    RightControl,
    RightAlt,
    RightSuper,
    RightHyper,
    RightMeta,
    IsoLevel3Shift,
    IsoLevel5Shift,
}

/// The key of a key press.
#[derive(Debug, Clone, Copy, PartialEq, Eq, Hash, Structural)]
pub enum KeyCode {
    Backspace,
    Enter,
    Left,
    Right,
    Up,
    Down,
    Home,
    End,
    PageUp,
    PageDown,
    Tab,
    BackTab,
    Delete,
    Insert,
    F(u8),
    Char(char),
    Null,
    Esc,
    CapsLock,
    ScrollLock,
    NumLock,
    PrintScreen,
    Pause,
    Menu,
    KeypadBegin,
    Media(MediaKeyCode),
    Modifier(ModifierKeyCode),
}

/// Modifier bits of a key press.
pub const SHIFT: u8 = 0b0000_0001;
pub const CONTROL: u8 = 0b0000_0010;
pub const ALT: u8 = 0b0000_0100;
pub const SUPER: u8 = 0b0000_1000;
pub const HYPER: u8 = 0b0001_0000;
pub const META: u8 = 0b0010_0000;
pub const NONE: u8 = 0;

/// The key that starts `<leader>` sequences.
pub const LEADER: char = ' ';

#[derive(Debug, Clone, Copy, PartialEq, Eq, Hash, Structural)]
pub struct Key {
    pub code: KeyCode,
    pub mods: u8,
}

/// A key as bindings see it: a capital letter arrives as `Char('A')` with
/// SHIFT on some terminals and without it on others, so characters drop
/// SHIFT and bindings match either way.
pub open spec fn key_spec(code: KeyCode, mods: u8) -> Key {
    Key {
        code,
        mods: match code {
            KeyCode::Char(_) => mods & !SHIFT,
            _ => mods,
        },
    }
}

pub open spec fn media_name(m: MediaKeyCode) -> Seq<char> {
    match m {
        MediaKeyCode::Play => "Play"@,
        MediaKeyCode::Pause => "Pause"@,
        MediaKeyCode::PlayPause => "PlayPause"@,
        MediaKeyCode::Reverse => "Reverse"@,
        MediaKeyCode::Stop => "Stop"@,
        MediaKeyCode::FastForward => "FastForward"@,
        MediaKeyCode::Rewind => "Rewind"@,
        MediaKeyCode::TrackNext => "TrackNext"@,
        MediaKeyCode::TrackPrevious => "TrackPrevious"@,
        MediaKeyCode::Record => "Record"@,
        MediaKeyCode::LowerVolume => "LowerVolume"@,
        MediaKeyCode::RaiseVolume => "RaiseVolume"@,
        MediaKeyCode::MuteVolume => "MuteVolume"@,
    }
}

pub open spec fn modifier_name(m: ModifierKeyCode) -> Seq<char> {
    match m {
        ModifierKeyCode::LeftShift => "LeftShift"@,
        ModifierKeyCode::LeftControl => "LeftControl"@,
        ModifierKeyCode::LeftAlt => "LeftAlt"@,
        ModifierKeyCode::LeftSuper => "LeftSuper"@,
        ModifierKeyCode::LeftHyper => "LeftHyper"@,
        ModifierKeyCode::LeftMeta => "LeftMeta"@,
        ModifierKeyCode::RightShift => "RightShift"@,
        ModifierKeyCode::RightControl => "RightControl"@,
        ModifierKeyCode::RightAlt => "RightAlt"@,
        ModifierKeyCode::RightSuper => "RightSuper"@,
        ModifierKeyCode::RightHyper => "RightHyper"@,
        ModifierKeyCode::RightMeta => "RightMeta"@,
        ModifierKeyCode::IsoLevel3Shift => "IsoLevel3Shift"@,
        ModifierKeyCode::IsoLevel5Shift => "IsoLevel5Shift"@,
    }
}

/// The name of a key in nvim notation, without modifiers; keys nvim has no
/// name for are spelled as their code.
pub open spec fn base_name(code: KeyCode) -> Seq<char> {
    match code {
        KeyCode::Char(c) => if c == ' ' {
            "Space"@
        } else {
            seq![c]
        },
        KeyCode::Enter => "CR"@,
        KeyCode::Esc => "Esc"@,
        KeyCode::Tab => "Tab"@,
        KeyCode::BackTab => "S-Tab"@,
        KeyCode::Backspace => "BS"@,
        KeyCode::Up => "Up"@,
        KeyCode::Down => "Down"@,
        KeyCode::Left => "Left"@,
        KeyCode::Right => "Right"@,
        KeyCode::Home => "Home"@,
        KeyCode::End => "End"@,
        KeyCode::PageUp => "PageUp"@,
        KeyCode::PageDown => "PageDown"@,
        KeyCode::F(n) => "F"@ + decimal_spec(n as nat),
        KeyCode::Delete => "Delete"@,
        KeyCode::Insert => "Insert"@,
        KeyCode::Null => "Null"@,
        KeyCode::CapsLock => "CapsLock"@,
        KeyCode::ScrollLock => "ScrollLock"@,
        KeyCode::NumLock => "NumLock"@,
        KeyCode::PrintScreen => "PrintScreen"@,
        KeyCode::Pause => "Pause"@,
        KeyCode::Menu => "Menu"@,
        KeyCode::KeypadBegin => "KeypadBegin"@,
        KeyCode::Media(m) => "Media("@ + media_name(m) + ")"@,
        KeyCode::Modifier(m) => "Modifier("@ + modifier_name(m) + ")"@,
    }
}

/// The key in nvim notation: a plain one-byte character stands for itself,
/// anything else goes in angle brackets with `C-` and `M-` for Control and
/// Alt.
pub open spec fn render_spec(k: Key) -> Seq<char> {
    let ctrl = k.mods & CONTROL != 0;
    let alt = k.mods & ALT != 0;
    let base = base_name(k.code);
    let bare = !ctrl && !alt && match k.code {
        KeyCode::Char(c) => c != ' ' && (c as int) < 0x80,
        _ => false,
    };
    if bare {
        base
    } else {
        "<"@ + (if ctrl { "C-"@ } else { Seq::<char>::empty() }) + (if alt { "M-"@ } else { Seq::<char>::empty() }) + base + ">"@
    }
}

fn push_base(out: &mut Vec<char>, code: KeyCode)
    ensures
        final(out)@ == old(out)@ + base_name(code),
{
    match code {
        KeyCode::Char(c) => {
            if c == ' ' {
                push_str(out, "Space");
            } else {
                out.push(c);
            }
        },
        KeyCode::Enter => push_str(out, "CR"),
        KeyCode::Esc => push_str(out, "Esc"),
        KeyCode::Tab => push_str(out, "Tab"),
        KeyCode::BackTab => push_str(out, "S-Tab"),
        KeyCode::Backspace => push_str(out, "BS"),
        KeyCode::Up => push_str(out, "Up"),
        KeyCode::Down => push_str(out, "Down"),
        KeyCode::Left => push_str(out, "Left"),
        KeyCode::Right => push_str(out, "Right"),
        KeyCode::Home => push_str(out, "Home"),
        KeyCode::End => push_str(out, "End"),
        KeyCode::PageUp => push_str(out, "PageUp"),
        KeyCode::PageDown => push_str(out, "PageDown"),
        KeyCode::F(n) => {
            push_str(out, "F");
            push_decimal(out, n as usize);
        },
        KeyCode::Delete => push_str(out, "Delete"),
        KeyCode::Insert => push_str(out, "Insert"),
        KeyCode::Null => push_str(out, "Null"),
        KeyCode::CapsLock => push_str(out, "CapsLock"),
        KeyCode::ScrollLock => push_str(out, "ScrollLock"),
        KeyCode::NumLock => push_str(out, "NumLock"),
        KeyCode::PrintScreen => push_str(out, "PrintScreen"),
        KeyCode::Pause => push_str(out, "Pause"),
        KeyCode::Menu => push_str(out, "Menu"),
        KeyCode::KeypadBegin => push_str(out, "KeypadBegin"),
        KeyCode::Media(m) => {
            push_str(out, "Media(");
            push_str(
                out,
                match m {
                    MediaKeyCode::Play => "Play",
                    MediaKeyCode::Pause => "Pause",
                    MediaKeyCode::PlayPause => "PlayPause",
                    MediaKeyCode::Reverse => "Reverse",
                    MediaKeyCode::Stop => "Stop",
                    MediaKeyCode::FastForward => "FastForward",
                    MediaKeyCode::Rewind => "Rewind",
                    MediaKeyCode::TrackNext => "TrackNext",
                    MediaKeyCode::TrackPrevious => "TrackPrevious",
                    MediaKeyCode::Record => "Record",
                    MediaKeyCode::LowerVolume => "LowerVolume",
                    MediaKeyCode::RaiseVolume => "RaiseVolume",
                    MediaKeyCode::MuteVolume => "MuteVolume",
                },
            );
            push_str(out, ")");
        },
        KeyCode::Modifier(m) => {
            push_str(out, "Modifier(");
            push_str(
                out,
                match m {
                    ModifierKeyCode::LeftShift => "LeftShift",
                    ModifierKeyCode::LeftControl => "LeftControl",
                    ModifierKeyCode::LeftAlt => "LeftAlt",
                    ModifierKeyCode::LeftSuper => "LeftSuper",
                    ModifierKeyCode::LeftHyper => "LeftHyper",
                    ModifierKeyCode::LeftMeta => "LeftMeta",
                    ModifierKeyCode::RightShift => "RightShift",
                    ModifierKeyCode::RightControl => "RightControl",
                    ModifierKeyCode::RightAlt => "RightAlt",
                    ModifierKeyCode::RightSuper => "RightSuper",
                    ModifierKeyCode::RightHyper => "RightHyper",
                    ModifierKeyCode::RightMeta => "RightMeta",
                    ModifierKeyCode::IsoLevel3Shift => "IsoLevel3Shift",
                    ModifierKeyCode::IsoLevel5Shift => "IsoLevel5Shift",
                },
            );
            push_str(out, ")");
        },
    }
    proof {
        assert(final(out)@ =~= old(out)@ + base_name(code));
    }
}

impl Key {
    pub fn new(code: KeyCode, mods: u8) -> (k: Key)
        ensures
            k == key_spec(code, mods),
    {
        let mods = match code {
            KeyCode::Char(_) => mods & !SHIFT,
            _ => mods,
        };
        Key { code, mods }
    }

    /// Render in nvim notation, for the status line and the help screen.
    pub fn render(self) -> (r: String)
        ensures
            r@ == render_spec(self),
    {
        let mut out: Vec<char> = Vec::new();
        self.push_rendered(&mut out);
        string_of(&out)
    }

    fn push_rendered(self, out: &mut Vec<char>)
        ensures
            final(out)@ == old(out)@ + render_spec(self),
    {
        let ctrl = self.mods & CONTROL != 0;
        let alt = self.mods & ALT != 0;
        let bare = !ctrl && !alt && match self.code {
            KeyCode::Char(c) => c != ' ' && (c as u32) < 0x80,
            _ => false,
        };
        let ghost start = out@;
        if bare {
            push_base(out, self.code);
        } else {
            out.push('<');
            if ctrl {
                push_str(out, "C-");
            }
            if alt {
                push_str(out, "M-");
            }
            push_base(out, self.code);
            out.push('>');
            proof {
                let c: Seq<char> = if ctrl { "C-"@ } else { Seq::<char>::empty() };
                let a: Seq<char> = if alt { "M-"@ } else { Seq::<char>::empty() };
                assert(out@ =~= start + ("<"@ + c + a + base_name(self.code) + ">"@)) by {
                    reveal_strlit("<");
                    reveal_strlit(">");
                }
            }
        }
    }
}

// -------------------------------------------------------------- parsing

/// ASCII lowercase, as `str::to_ascii_lowercase`: other characters stay.
pub open spec fn ascii_lower(c: char) -> char {
    if 'A' <= c && c <= 'Z' {
        ((c as int) + 32) as char
    } else {
        c
    }
}

pub open spec fn ascii_lower_all(s: Seq<char>) -> Seq<char> {
    Seq::new(s.len(), |i: int| ascii_lower(s[i]))
}

/// The key a name inside `<...>` stands for, case-insensitively.
pub open spec fn parse_named_spec(name: Seq<char>) -> Option<Key> {
    let l = ascii_lower_all(name);
    if l == "leader"@ {
        Some(key_spec(KeyCode::Char(LEADER), NONE))
    } else if l.len() >= 2 && l[0] == 'c' && l[1] == '-' {
        if l.len() > 2 {
            Some(key_spec(KeyCode::Char(l[2]), CONTROL))
        } else {
            None
        }
    } else if l.len() >= 2 && l[0] == 'm' && l[1] == '-' {
        if l.len() > 2 {
            Some(key_spec(KeyCode::Char(l[2]), ALT))
        } else {
            None
        }
    } else {
        match named_code(l) {
            Some(code) => Some(key_spec(code, NONE)),
            None => None,
        }
    }
}

pub open spec fn named_code(l: Seq<char>) -> Option<KeyCode> {
    if l == "cr"@ || l == "enter"@ || l == "return"@ {
        Some(KeyCode::Enter)
    } else if l == "esc"@ {
        Some(KeyCode::Esc)
    } else if l == "tab"@ {
        Some(KeyCode::Tab)
    } else if l == "s-tab"@ {
        Some(KeyCode::BackTab)
    } else if l == "bs"@ || l == "backspace"@ {
        Some(KeyCode::Backspace)
    } else if l == "space"@ {
        Some(KeyCode::Char(' '))
    } else if l == "bslash"@ {
        Some(KeyCode::Char('\\'))
    } else if l == "up"@ {
        Some(KeyCode::Up)
    } else if l == "down"@ {
        Some(KeyCode::Down)
    } else if l == "left"@ {
        Some(KeyCode::Left)
    } else if l == "right"@ {
        Some(KeyCode::Right)
    } else if l == "home"@ {
        Some(KeyCode::Home)
    } else if l == "end"@ {
        Some(KeyCode::End)
    } else if l == "pageup"@ {
        Some(KeyCode::PageUp)
    } else if l == "pagedown"@ {
        Some(KeyCode::PageDown)
    } else {
        None
    }
}

/// The keys of nvim notation from position `i` on: `<name>` for a known
/// name, any other character for itself.
pub open spec fn parse_from(cs: Seq<char>, i: int) -> Seq<Key>
    decreases cs.len() - i,
{
    if i < 0 || i >= cs.len() {
        Seq::empty()
    } else {
        let e = first_index_of(cs, '>', i);
        if cs[i] == '<' && i < e < cs.len() && parse_named_spec(cs.subrange(i + 1, e)) is Some {
            seq![parse_named_spec(cs.subrange(i + 1, e))->0] + parse_from(cs, e + 1)
        } else {
            seq![key_spec(KeyCode::Char(cs[i]), NONE)] + parse_from(cs, i + 1)
        }
    }
}

fn lower_char(c: char) -> (r: char)
    ensures
        r == ascii_lower(c),
{
    if 'A' <= c && c <= 'Z' {
        let b = (c as u8) + 32;
        b as char
    } else {
        c
    }
}

fn same_chars(a: &Vec<char>, b: &str) -> (r: bool)
    ensures
        r == (a@ == b@),
{
    let v = chars_of(b);
    if a.len() != v.len() {
        return false;
    }
    let mut i: usize = 0;
    while i < a.len()
        invariant
            a@.len() == v@.len(),
            v@ == b@,
            i <= a@.len(),
            forall|k: int| 0 <= k < i ==> a@[k] == v@[k],
        decreases a@.len() - i,
    {
        if a[i] != v[i] {
            return false;
        }
        i = i + 1;
    }
    proof {
        assert(a@ =~= v@);
    }
    true
}

fn named_key_code(l: &Vec<char>) -> (r: Option<KeyCode>)
    ensures
        r == named_code(l@),
{
    if same_chars(l, "cr") || same_chars(l, "enter") || same_chars(l, "return") {
        Some(KeyCode::Enter)
    } else if same_chars(l, "esc") {
        Some(KeyCode::Esc)
    } else if same_chars(l, "tab") {
        Some(KeyCode::Tab)
    } else if same_chars(l, "s-tab") {
        Some(KeyCode::BackTab)
    } else if same_chars(l, "bs") || same_chars(l, "backspace") {
        Some(KeyCode::Backspace)
    } else if same_chars(l, "space") {
        Some(KeyCode::Char(' '))
    } else if same_chars(l, "bslash") {
        Some(KeyCode::Char('\\'))
    } else if same_chars(l, "up") {
        Some(KeyCode::Up)
    } else if same_chars(l, "down") {
        Some(KeyCode::Down)
    } else if same_chars(l, "left") {
        Some(KeyCode::Left)
    } else if same_chars(l, "right") {
        Some(KeyCode::Right)
    } else if same_chars(l, "home") {
        Some(KeyCode::Home)
    } else if same_chars(l, "end") {
        Some(KeyCode::End)
    } else if same_chars(l, "pageup") {
        Some(KeyCode::PageUp)
    } else if same_chars(l, "pagedown") {
        Some(KeyCode::PageDown)
    } else {
        None
    }
}

/// The key a `<...>` name stands for.
pub fn parse_named(name: &Vec<char>) -> (r: Option<Key>)
    ensures
        r == parse_named_spec(name@),
{
    let mut l: Vec<char> = Vec::new();
    let mut i: usize = 0;
    while i < name.len()
        invariant
            i <= name@.len(),
            l@ == ascii_lower_all(name@.take(i as int)),
        decreases name@.len() - i,
    {
        l.push(lower_char(name[i]));
        proof {
            assert(l@ =~= ascii_lower_all(name@.take(i + 1)));
        }
        i = i + 1;
    }
    proof {
        assert(name@.take(i as int) =~= name@);
    }
    if same_chars(&l, "leader") {
        return Some(Key::new(KeyCode::Char(LEADER), NONE));
    }
    if l.len() >= 2 && l[0] == 'c' && l[1] == '-' {
        if l.len() > 2 {
            return Some(Key::new(KeyCode::Char(l[2]), CONTROL));
        }
        return None;
    }
    if l.len() >= 2 && l[0] == 'm' && l[1] == '-' {
        if l.len() > 2 {
            return Some(Key::new(KeyCode::Char(l[2]), ALT));
        }
        return None;
    }
    match named_key_code(&l) {
        Some(code) => Some(Key::new(code, NONE)),
        None => None,
    }
}

/// Parse nvim-style notation: `<leader>fw`, `<C-d>`, `]g`, `<CR>`.
pub fn parse(spec: &str) -> (r: Vec<Key>)
    ensures
        r@ == parse_from(spec@, 0),
{
    let chars = chars_of(spec);
    let mut keys: Vec<Key> = Vec::new();
    let mut i: usize = 0;
    while i < chars.len()
        invariant
            chars@ == spec@,
            i <= chars@.len(),
            keys@ + parse_from(spec@, i as int) == parse_from(spec@, 0),
        decreases chars@.len() - i,
    {
        let ghost before = keys@;
        proof {
            lemma_first_index_of(spec@, '>', i as int);
        }
        let mut e: usize = i;
        while e < chars.len() && chars[e] != '>'
            invariant
                chars@ == spec@,
                i <= e <= chars@.len(),
                first_index_of(spec@, '>', e as int) == first_index_of(spec@, '>', i as int),
            decreases chars@.len() - e,
        {
            e = e + 1;
        }
        let mut handled = false;
        if chars[i] == '<' && e < chars.len() && i < e {
            let mut name: Vec<char> = Vec::new();
            let mut j: usize = i + 1;
            while j < e
                invariant
                    chars@ == spec@,
                    i + 1 <= j <= e < chars@.len(),
                    name@ == spec@.subrange(i + 1, j as int),
                decreases e - j,
            {
                name.push(chars[j]);
                proof {
                    assert(name@ =~= spec@.subrange(i + 1, j + 1));
                }
                j = j + 1;
            }
            match parse_named(&name) {
                Some(k) => {
                    keys.push(k);
                    proof {
                        assert(keys@ + parse_from(spec@, e + 1) =~= before + parse_from(spec@, i as int));
                    }
                    i = e + 1;
                    handled = true;
                },
                None => {},
            }
        }
        if !handled {
            keys.push(Key::new(KeyCode::Char(chars[i]), NONE));
            proof {
                assert(keys@ + parse_from(spec@, i + 1) =~= before + parse_from(spec@, i as int));
            }
            i = i + 1;
        }
    }
    proof {
        assert(keys@ + parse_from(spec@, i as int) =~= keys@);
    }
    keys
}

// ------------------------------------------------------------- bindings

/// Everything the UI can be asked to do.
#[derive(Debug, Clone, Copy, PartialEq, Eq, Structural)]
pub enum Action {
    Quit,
    Help,
    Refresh,
    // Panes
    ToggleTree,
    FocusTree,
    FocusDiff,
    ToggleLayout,
    WidenTree,
    NarrowTree,
    // Diff movement
    Down,
    Up,
    HalfPageDown,
    HalfPageUp,
    PageDown,
    PageUp,
    Top,
    Bottom,
    Center,
    NextHunk,
    PrevHunk,
    NextFile,
    PrevFile,
    NextQuickfix,
    PrevQuickfix,
    ScrollLeft,
    ScrollRight,
    ScrollHome,
    // Folds / context
    ToggleFullContext,
    ToggleGroupDirs,
    // Search
    SearchPrompt,
    SearchNext,
    SearchPrev,
    ClearSearch,
    // Pickers (telescope)
    PickFiles,
    PickGrep,
    PickGrepWord,
    PickBuffers,
    PickLines,
    PickResume,
    // Tree (neo-tree)
    TreeOpen,
    TreeToggleNode,
    TreeCloseNode,
    TreeToggleAll,
    TreeCloseAll,
    TreeExpandAll,
    TreeNavigateUp,
    TreeFilter,
    TreeClearFilter,
    // Misc
    OpenEditor,
    YankPath,
    SwapSides,
}

/// Which key table is live.
#[derive(Debug, Clone, Copy, PartialEq, Eq, Structural)]
pub enum Context {
    Diff,
    Tree,
}

pub open spec fn bindings_model(v: Seq<(&str, Action)>) -> Seq<(Seq<char>, Action)> {
    Seq::new(v.len(), |i: int| (v[i].0@, v[i].1))
}

/// Bindings shared by both panes. Mirrors the user's nvim keymaps.
pub open spec fn shared_spec() -> Seq<(Seq<char>, Action)> {
    seq![
        ("q"@, Action::Quit),
        ("<C-c>"@, Action::Quit),
        ("?"@, Action::Help),
        ("R"@, Action::Refresh),
        ("<leader>j"@, Action::PickFiles),
        ("<leader>k"@, Action::PickGrep),
        ("<leader>fw"@, Action::PickGrepWord),
        ("<leader>fb"@, Action::PickBuffers),
        ("<leader>fs"@, Action::PickLines),
        ("<leader>fr"@, Action::PickResume),
        ("<leader>n"@, Action::ToggleTree),
        ("<bslash>"@, Action::ToggleTree),
        ("]g"@, Action::NextFile),
        ("[g"@, Action::PrevFile),
        ("<C-w>h"@, Action::FocusTree),
        ("<C-w>l"@, Action::FocusDiff),
        ("<C-w><"@, Action::NarrowTree),
        ("<C-w>>"@, Action::WidenTree),
        ("<Tab>"@, Action::ToggleLayout),
        ("]q"@, Action::NextQuickfix),
        ("[q"@, Action::PrevQuickfix),
        ("<leader>g"@, Action::ToggleGroupDirs),
    ]
}

pub open spec fn diff_only_spec() -> Seq<(Seq<char>, Action)> {
    seq![
        ("j"@, Action::Down),
        ("<Down>"@, Action::Down),
        ("k"@, Action::Up),
        ("<Up>"@, Action::Up),
        ("<C-d>"@, Action::HalfPageDown),
        ("<C-u>"@, Action::HalfPageUp),
        ("<C-f>"@, Action::PageDown),
        ("<C-b>"@, Action::PageUp),
        ("<PageDown>"@, Action::PageDown),
        ("<PageUp>"@, Action::PageUp),
        ("gg"@, Action::Top),
        ("G"@, Action::Bottom),
        ("zz"@, Action::Center),
        ("]c"@, Action::NextHunk),
        ("[c"@, Action::PrevHunk),
        ("za"@, Action::ToggleFullContext),
        ("/"@, Action::SearchPrompt),
        ("n"@, Action::SearchNext),
        ("N"@, Action::SearchPrev),
        ("<Esc>"@, Action::ClearSearch),
        ("e"@, Action::OpenEditor),
        ("<CR>"@, Action::OpenEditor),
        ("Y"@, Action::YankPath),
        ("s"@, Action::SwapSides),
        ("h"@, Action::ScrollLeft),
        ("<Left>"@, Action::ScrollLeft),
        ("l"@, Action::ScrollRight),
        ("<Right>"@, Action::ScrollRight),
        ("0"@, Action::ScrollHome),
    ]
}

pub open spec fn tree_only_spec() -> Seq<(Seq<char>, Action)> {
    seq![
        ("j"@, Action::Down),
        ("<Down>"@, Action::Down),
        ("k"@, Action::Up),
        ("<Up>"@, Action::Up),
        ("gg"@, Action::Top),
        ("G"@, Action::Bottom),
        ("<CR>"@, Action::TreeOpen),
        ("l"@, Action::TreeOpen),
        ("<Space>"@, Action::TreeToggleNode),
        ("C"@, Action::TreeCloseNode),
        ("h"@, Action::TreeCloseNode),
        ("z"@, Action::TreeToggleAll),
        ("Z"@, Action::TreeExpandAll),
        ("<BS>"@, Action::TreeNavigateUp),
        ("/"@, Action::TreeFilter),
        ("<C-x>"@, Action::TreeClearFilter),
        ("e"@, Action::OpenEditor),
        ("Y"@, Action::YankPath),
    ]
}

/// Bindings shared by both panes.
pub fn shared_bindings() -> (r: Vec<(&'static str, Action)>)
    ensures
        bindings_model(r@) == shared_spec(),
{
    let v: Vec<(&'static str, Action)> = vec![
        ("q", Action::Quit),
        ("<C-c>", Action::Quit),
        ("?", Action::Help),
        ("R", Action::Refresh),
        ("<leader>j", Action::PickFiles),
        ("<leader>k", Action::PickGrep),
        ("<leader>fw", Action::PickGrepWord),
        ("<leader>fb", Action::PickBuffers),
        ("<leader>fs", Action::PickLines),
        ("<leader>fr", Action::PickResume),
        ("<leader>n", Action::ToggleTree),
        ("<bslash>", Action::ToggleTree),
        ("]g", Action::NextFile),
        ("[g", Action::PrevFile),
        ("<C-w>h", Action::FocusTree),
        ("<C-w>l", Action::FocusDiff),
        ("<C-w><", Action::NarrowTree),
        ("<C-w>>", Action::WidenTree),
        ("<Tab>", Action::ToggleLayout),
        ("]q", Action::NextQuickfix),
        ("[q", Action::PrevQuickfix),
        ("<leader>g", Action::ToggleGroupDirs),
        ];
    proof {
        assert(bindings_model(v@) =~= shared_spec());
    }
    v
}

/// Bindings of the diff pane only.
pub fn diff_only_bindings() -> (r: Vec<(&'static str, Action)>)
    ensures
        bindings_model(r@) == diff_only_spec(),
{
    let v: Vec<(&'static str, Action)> = vec![
        ("j", Action::Down),
        ("<Down>", Action::Down),
        ("k", Action::Up),
        ("<Up>", Action::Up),
        ("<C-d>", Action::HalfPageDown),
        ("<C-u>", Action::HalfPageUp),
        ("<C-f>", Action::PageDown),
        ("<C-b>", Action::PageUp),
        ("<PageDown>", Action::PageDown),
        ("<PageUp>", Action::PageUp),
        ("gg", Action::Top),
        ("G", Action::Bottom),
        ("zz", Action::Center),
        ("]c", Action::NextHunk),
        ("[c", Action::PrevHunk),
        ("za", Action::ToggleFullContext),
        ("/", Action::SearchPrompt),
        ("n", Action::SearchNext),
        ("N", Action::SearchPrev),
        ("<Esc>", Action::ClearSearch),
        ("e", Action::OpenEditor),
        ("<CR>", Action::OpenEditor),
        ("Y", Action::YankPath),
        ("s", Action::SwapSides),
        ("h", Action::ScrollLeft),
        ("<Left>", Action::ScrollLeft),
        ("l", Action::ScrollRight),
        ("<Right>", Action::ScrollRight),
        ("0", Action::ScrollHome),
        ];
    proof {
        assert(bindings_model(v@) =~= diff_only_spec());
    }
    v
}

/// Bindings of the tree pane only.
pub fn tree_only_bindings() -> (r: Vec<(&'static str, Action)>)
    ensures
        bindings_model(r@) == tree_only_spec(),
{
    let v: Vec<(&'static str, Action)> = vec![
        ("j", Action::Down),
        ("<Down>", Action::Down),
        ("k", Action::Up),
        ("<Up>", Action::Up),
        ("gg", Action::Top),
        ("G", Action::Bottom),
        ("<CR>", Action::TreeOpen),
        ("l", Action::TreeOpen),
        ("<Space>", Action::TreeToggleNode),
        ("C", Action::TreeCloseNode),
        ("h", Action::TreeCloseNode),
        ("z", Action::TreeToggleAll),
        ("Z", Action::TreeExpandAll),
        ("<BS>", Action::TreeNavigateUp),
        ("/", Action::TreeFilter),
        ("<C-x>", Action::TreeClearFilter),
        ("e", Action::OpenEditor),
        ("Y", Action::YankPath),
        ];
    proof {
        assert(bindings_model(v@) =~= tree_only_spec());
    }
    v
}

// --------------------------------------------------------------- keymap

pub open spec fn table_model(v: Seq<(Vec<Key>, Action)>) -> Seq<(Seq<Key>, Action)> {
    Seq::new(v.len(), |i: int| (v[i].0@, v[i].1))
}

/// Some binding of `t` is exactly `keys`.
pub open spec fn has_keys(t: Seq<(Seq<Key>, Action)>, keys: Seq<Key>) -> bool {
    exists|i: int| 0 <= i < t.len() && (#[trigger] t[i]).0 == keys
}

/// The table of a list of bindings: each parsed, the first definition of a
/// key sequence winning, so a pane-specific binding overrides a shared one.
pub open spec fn build_spec(specs: Seq<(Seq<char>, Action)>) -> Seq<(Seq<Key>, Action)>
    decreases specs.len(),
{
    if specs.len() == 0 {
        Seq::empty()
    } else {
        let t = build_spec(specs.drop_last());
        let keys = parse_from(specs.last().0, 0);
        if has_keys(t, keys) {
            t
        } else {
            t.push((keys, specs.last().1))
        }
    }
}

pub struct Keymap {
    diff: Vec<(Vec<Key>, Action)>,
    tree: Vec<(Vec<Key>, Action)>,
}

fn same_keys(a: &Vec<Key>, b: &Vec<Key>) -> (r: bool)
    ensures
        r == (a@ == b@),
{
    if a.len() != b.len() {
        return false;
    }
    let mut i: usize = 0;
    while i < a.len()
        invariant
            a@.len() == b@.len(),
            i <= a@.len(),
            forall|k: int| 0 <= k < i ==> a@[k] == b@[k],
        decreases a@.len() - i,
    {
        if a[i] != b[i] {
            return false;
        }
        i = i + 1;
    }
    proof {
        assert(a@ =~= b@);
    }
    true
}

fn table_has(v: &Vec<(Vec<Key>, Action)>, keys: &Vec<Key>) -> (r: bool)
    ensures
        r == has_keys(table_model(v@), keys@),
{
    let mut i: usize = 0;
    while i < v.len()
        invariant
            i <= v@.len(),
            forall|k: int| 0 <= k < i ==> v@[k].0@ != keys@,
        decreases v@.len() - i,
    {
        if same_keys(&v[i].0, keys) {
            proof {
                assert(table_model(v@)[i as int].0 == keys@);
            }
            return true;
        }
        i = i + 1;
    }
    proof {
        if has_keys(table_model(v@), keys@) {
            let k = choose|k: int| 0 <= k < table_model(v@).len() && (#[trigger] table_model(v@)[k]).0 == keys@;
            assert(v@[k].0@ == keys@);
        }
    }
    false
}

/// Adds the binding `spec` unless its key sequence is bound already.
fn add_binding(v: &mut Vec<(Vec<Key>, Action)>, spec: &str, action: Action)
    ensures
        table_model(final(v)@) == {
            let t = table_model(old(v)@);
            let keys = parse_from(spec@, 0);
            if has_keys(t, keys) {
                t
            } else {
                t.push((keys, action))
            }
        },
{
    let keys = parse(spec);
    if !table_has(v, &keys) {
        let ghost prev = table_model(v@);
        v.push((keys, action));
        proof {
            assert(table_model(v@) =~= prev.push((keys@, action)));
        }
    }
}

/// The table for `extra` followed by the shared bindings.
fn build(extra: Vec<(&'static str, Action)>) -> (r: Vec<(Vec<Key>, Action)>)
    ensures
        table_model(r@) == build_spec(bindings_model(extra@) + shared_spec()),
{
    let shared = shared_bindings();
    let ghost specs = bindings_model(extra@) + shared_spec();
    let mut v: Vec<(Vec<Key>, Action)> = Vec::new();
    let n = extra.len();
    let mut i: usize = 0;
    proof {
        assert(specs.take(0) =~= Seq::<(Seq<char>, Action)>::empty());
        assert(table_model(v@) =~= build_spec(specs.take(0)));
    }
    while i < n
        invariant
            n == extra@.len(),
            specs == bindings_model(extra@) + shared_spec(),
            i <= n,
            table_model(v@) == build_spec(specs.take(i as int)),
        decreases n - i,
    {
        let (spec, action) = extra[i];
        proof {
            assert(specs[i as int] == (spec@, action));
            assert(specs.take(i + 1).drop_last() =~= specs.take(i as int));
            assert(specs.take(i + 1).last() == specs[i as int]);
        }
        add_binding(&mut v, spec, action);
        i = i + 1;
    }
    let mut j: usize = 0;
    while j < shared.len()
        invariant
            n == extra@.len(),
            bindings_model(shared@) == shared_spec(),
            specs == bindings_model(extra@) + shared_spec(),
            j <= shared@.len(),
            table_model(v@) == build_spec(specs.take(n + j)),
        decreases shared@.len() - j,
    {
        let (spec, action) = shared[j];
        proof {
            assert(specs[n + j] == (spec@, action));
            assert(specs.take(n + j + 1).drop_last() =~= specs.take(n + j));
            assert(specs.take(n + j + 1).last() == specs[n + j]);
        }
        add_binding(&mut v, spec, action);
        j = j + 1;
    }
    proof {
        assert(specs.take(n + j) =~= specs);
    }
    v
}

impl Keymap {
    /// The bindings live in a context, in lookup order.
    pub closed spec fn table(&self, ctx: Context) -> Seq<(Seq<Key>, Action)> {
        match ctx {
            Context::Diff => table_model(self.diff@),
            Context::Tree => table_model(self.tree@),
        }
    }

    pub fn new() -> (m: Self)
        ensures
            m.table(Context::Diff) == build_spec(diff_only_spec() + shared_spec()),
            m.table(Context::Tree) == build_spec(tree_only_spec() + shared_spec()),
    {
        Keymap { diff: build(diff_only_bindings()), tree: build(tree_only_bindings()) }
    }

    fn table_of(&self, ctx: Context) -> (r: &Vec<(Vec<Key>, Action)>)
        ensures
            table_model(r@) == self.table(ctx),
    {
        match ctx {
            Context::Diff => &self.diff,
            Context::Tree => &self.tree,
        }
    }

    /// All bindings in a context, rendered, for the help screen.
    pub fn entries(&self, ctx: Context) -> (r: Vec<(String, Action)>)
        ensures
            r@.len() == self.table(ctx).len(),
            forall|i: int| 0 <= i < r@.len() ==> (#[trigger] r@[i]).0@ == render_all(self.table(ctx)[i].0) && r@[i].1
                == self.table(ctx)[i].1,
    {
        let t = self.table_of(ctx);
        let mut out: Vec<(String, Action)> = Vec::new();
        let mut i: usize = 0;
        while i < t.len()
            invariant
                table_model(t@) == self.table(ctx),
                i <= t@.len(),
                out@.len() == i,
                forall|k: int| 0 <= k < i ==> (#[trigger] out@[k]).0@ == render_all(self.table(ctx)[k].0) && out@[k].1
                    == self.table(ctx)[k].1,
            decreases t@.len() - i,
        {
            let s = render_pending(t[i].0.as_slice());
            out.push((s, t[i].1));
            i = i + 1;
        }
        out
    }
}

impl Default for Keymap {
    fn default() -> (m: Self)
        ensures
            m.table(Context::Diff) == build_spec(diff_only_spec() + shared_spec()),
            m.table(Context::Tree) == build_spec(tree_only_spec() + shared_spec()),
    {
        Self::new()
    }
}

// ----------------------------------------------------------- resolution

/// Outcome of feeding one more key to the resolver.
#[derive(Debug, Clone, Copy, PartialEq, Eq, Structural)]
pub enum Resolved {
    /// Run this action.
    Action(Action),
    /// A longer binding might still match; keep the pending buffer.
    Pending,
    /// Nothing matches; the buffer has been discarded.
    Nothing,
    /// The pending buffer resolved to `action`, and `replay` still needs
    /// handling as a fresh keystroke. This is nvim's `nowait = false`.
    ActionThenReplay(Action, Key),
}

/// The action of the first binding that is exactly `keys`.
pub open spec fn find_exact(t: Seq<(Seq<Key>, Action)>, keys: Seq<Key>) -> Option<Action>
    decreases t.len(),
{
    if t.len() == 0 {
        None
    } else if t[0].0 == keys {
        Some(t[0].1)
    } else {
        find_exact(t.drop_first(), keys)
    }
}

/// Some binding is longer than `keys` and starts with them.
pub open spec fn extends(t: Seq<(Seq<Key>, Action)>, keys: Seq<Key>) -> bool {
    exists|i: int| 0 <= i < t.len() && (#[trigger] t[i]).0.len() > keys.len() && t[i].0.take(keys.len() as int) == keys
}

/// The pending buffer after one more key, and what that key resolved to.
pub open spec fn resolve_spec(t: Seq<(Seq<Key>, Action)>, pending: Seq<Key>, key: Key) -> (Seq<Key>, Resolved) {
    let p = pending.push(key);
    match find_exact(t, p) {
        Some(a) => if extends(t, p) {
            (p, Resolved::Pending)
        } else {
            (Seq::empty(), Resolved::Action(a))
        },
        None => if extends(t, p) {
            (p, Resolved::Pending)
        } else if p.len() > 1 && find_exact(t, p.drop_last()) is Some {
            (Seq::empty(), Resolved::ActionThenReplay(find_exact(t, p.drop_last())->0, key))
        } else {
            (Seq::empty(), Resolved::Nothing)
        },
    }
}

fn lookup_exact(t: &Vec<(Vec<Key>, Action)>, keys: &Vec<Key>) -> (r: Option<Action>)
    ensures
        r == find_exact(table_model(t@), keys@),
{
    let ghost m = table_model(t@);
    let mut i: usize = 0;
    proof {
        assert(m.skip(0) =~= m);
    }
    while i < t.len()
        invariant
            m == table_model(t@),
            i <= t@.len(),
            find_exact(m.skip(i as int), keys@) == find_exact(m, keys@),
        decreases t@.len() - i,
    {
        proof {
            assert(m.skip(i as int)[0] == m[i as int]);
            assert(m.skip(i as int).drop_first() =~= m.skip(i + 1));
        }
        if same_keys(&t[i].0, keys) {
            return Some(t[i].1);
        }
        i = i + 1;
    }
    None
}

fn starts_with_keys(long: &Vec<Key>, p: &Vec<Key>) -> (r: bool)
    ensures
        r == (long@.len() > p@.len() && long@.take(p@.len() as int) == p@),
{
    if long.len() <= p.len() {
        return false;
    }
    let mut i: usize = 0;
    while i < p.len()
        invariant
            long@.len() > p@.len(),
            i <= p@.len(),
            forall|k: int| 0 <= k < i ==> long@[k] == p@[k],
        decreases p@.len() - i,
    {
        if long[i] != p[i] {
            proof {
                assert(long@.take(p@.len() as int)[i as int] != p@[i as int]);
            }
            return false;
        }
        i = i + 1;
    }
    proof {
        assert(long@.take(p@.len() as int) =~= p@);
    }
    true
}

fn any_extends(t: &Vec<(Vec<Key>, Action)>, p: &Vec<Key>) -> (r: bool)
    ensures
        r == extends(table_model(t@), p@),
{
    let mut i: usize = 0;
    while i < t.len()
        invariant
            i <= t@.len(),
            forall|k: int| 0 <= k < i ==> !(t@[k].0@.len() > p@.len() && t@[k].0@.take(p@.len() as int) == p@),
        decreases t@.len() - i,
    {
        if starts_with_keys(&t[i].0, p) {
            proof {
                assert(table_model(t@)[i as int].0 == t@[i as int].0@);
            }
            return true;
        }
        i = i + 1;
    }
    proof {
        if extends(table_model(t@), p@) {
            let k = choose|k: int| 0 <= k < table_model(t@).len() && (#[trigger] table_model(t@)[k]).0.len() > p@.len()
                && table_model(t@)[k].0.take(p@.len() as int) == p@;
            assert(table_model(t@)[k].0 == t@[k].0@);
        }
    }
    false
}

/// Feed `key` to the sequence resolver.
///
/// `pending` is the buffer of keys typed so far; this function updates it.
pub fn resolve(map: &Keymap, ctx: Context, pending: &mut Vec<Key>, key: Key) -> (r: Resolved)
    ensures
        (final(pending)@, r) == resolve_spec(map.table(ctx), old(pending)@, key),
{
    pending.push(key);
    let table = map.table_of(ctx);
    let exact = lookup_exact(table, pending);
    let has_longer = any_extends(table, pending);
    match exact {
        Some(action) => {
            if has_longer {
                // Complete, but a longer binding shares this prefix: wait one key.
                Resolved::Pending
            } else {
                // Unambiguous match.
                pending.clear();
                Resolved::Action(action)
            }
        },
        None => {
            if has_longer {
                // Only a prefix so far.
                return Resolved::Pending;
            }
            // The buffer is dead. If a proper prefix of it was a complete
            // binding, fire that and replay the key that broke the sequence.
            if pending.len() > 1 {
                let mut head = pending.clone();
                head.pop();
                proof {
                    assert(head@ =~= pending@.drop_last());
                }
                match lookup_exact(table, &head) {
                    Some(action) => {
                        pending.clear();
                        return Resolved::ActionThenReplay(action, key);
                    },
                    None => {},
                }
            }
            pending.clear();
            Resolved::Nothing
        },
    }
}

/// The action of the longest of the first `n` prefixes of `pending` that is
/// a complete binding.
pub open spec fn longest_from(t: Seq<(Seq<Key>, Action)>, pending: Seq<Key>, n: int) -> Option<Action>
    decreases n,
{
    if n <= 0 {
        None
    } else {
        match find_exact(t, pending.take(n)) {
            Some(a) => Some(a),
            None => longest_from(t, pending, n - 1),
        }
    }
}

/// The longest prefix of `pending` that is a complete binding, if any.
///
/// Used when the timeout expires with a sequence still open.
pub fn longest_complete(map: &Keymap, ctx: Context, pending: &[Key]) -> (r: Option<Action>)
    ensures
        r == longest_from(map.table(ctx), pending@, pending@.len() as int),
{
    let table = map.table_of(ctx);
    let mut n: usize = pending.len();
    while n > 0
        invariant
            table_model(table@) == map.table(ctx),
            n <= pending@.len(),
            longest_from(map.table(ctx), pending@, n as int) == longest_from(map.table(ctx), pending@, pending@.len() as int),
        decreases n,
    {
        let mut head: Vec<Key> = Vec::new();
        let mut j: usize = 0;
        while j < n
            invariant
                n <= pending@.len(),
                j <= n,
                head@ == pending@.take(j as int),
            decreases n - j,
        {
            head.push(pending[j]);
            proof {
                assert(head@ =~= pending@.take(j + 1));
            }
            j = j + 1;
        }
        match lookup_exact(table, &head) {
            Some(a) => {
                return Some(a);
            },
            None => {},
        }
        n = n - 1;
    }
    None
}

/// The keys in nvim notation, one after another.
pub open spec fn render_all(keys: Seq<Key>) -> Seq<char>
    decreases keys.len(),
{
    if keys.len() == 0 {
        Seq::empty()
    } else {
        render_all(keys.drop_last()) + render_spec(keys.last())
    }
}

/// Render the pending buffer for the status line, like nvim's showcmd.
pub fn render_pending(pending: &[Key]) -> (r: String)
    ensures
        r@ == render_all(pending@),
{
    let mut out: Vec<char> = Vec::new();
    let mut i: usize = 0;
    while i < pending.len()
        invariant
            i <= pending@.len(),
            out@ == render_all(pending@.take(i as int)),
        decreases pending@.len() - i,
    {
        pending[i].push_rendered(&mut out);
        proof {
            assert(pending@.take(i + 1).drop_last() =~= pending@.take(i as int));
        }
        i = i + 1;
    }
    proof {
        assert(pending@.take(i as int) =~= pending@);
    }
    string_of(&out)
}

// ------------------------------------------------------------------- laws

/// A sequence that is both a complete binding and the prefix of a longer
/// one waits for the next key, and when that key extends nothing the
/// shorter binding fires and the key is handled afresh.
pub proof fn complete_prefix_waits_then_falls_back(t: Seq<(Seq<Key>, Action)>, pending: Seq<Key>, k1: Key, k2: Key)
    requires
        find_exact(t, pending.push(k1)) is Some,
        extends(t, pending.push(k1)),
        find_exact(t, pending.push(k1).push(k2)) is None,
        !extends(t, pending.push(k1).push(k2)),
    ensures
        resolve_spec(t, pending, k1) == (pending.push(k1), Resolved::Pending),
        resolve_spec(t, pending.push(k1), k2) == (
            Seq::<Key>::empty(),
            Resolved::ActionThenReplay(find_exact(t, pending.push(k1))->0, k2),
        ),
{
    assert(pending.push(k1).push(k2).drop_last() =~= pending.push(k1));
}

/// The buffer survives a key only while the key leaves it pending.
pub proof fn pending_clears_unless_waiting(t: Seq<(Seq<Key>, Action)>, pending: Seq<Key>, key: Key)
    ensures
        resolve_spec(t, pending, key).1 is Pending ==> resolve_spec(t, pending, key).0 == pending.push(key),
        !(resolve_spec(t, pending, key).1 is Pending) ==> resolve_spec(t, pending, key).0.len() == 0,
{
}

/// An open sequence that is itself a complete binding fires that binding
/// when the timeout expires.
pub proof fn timeout_fires_a_complete_sequence(t: Seq<(Seq<Key>, Action)>, pending: Seq<Key>)
    requires
        pending.len() > 0,
        find_exact(t, pending) is Some,
    ensures
        longest_from(t, pending, pending.len() as int) == find_exact(t, pending),
{
    assert(pending.take(pending.len() as int) =~= pending);
}

/// No key sequence is bound twice in a table.
pub proof fn tables_bind_each_sequence_once(specs: Seq<(Seq<char>, Action)>)
    ensures
        forall|i: int, j: int|
            0 <= i < j < build_spec(specs).len() ==> (#[trigger] build_spec(specs)[i]).0 != (#[trigger] build_spec(specs)[j]).0,
    decreases specs.len(),
{
    if specs.len() > 0 {
        tables_bind_each_sequence_once(specs.drop_last());
        let t = build_spec(specs.drop_last());
        let keys = parse_from(specs.last().0, 0);
        if !has_keys(t, keys) {
            let u = t.push((keys, specs.last().1));
            assert forall|i: int, j: int| 0 <= i < j < u.len() implies (#[trigger] u[i]).0 != (#[trigger] u[j]).0 by {
                if j == t.len() {
                    assert(u[i] == t[i]);
                } else {
                    assert(u[i] == t[i]);
                    assert(u[j] == t[j]);
                }
            }
        }
    }
}

/// A key written as `<name>`, with a name holding no `>`, reads back as
/// the key that name stands for.
proof fn lemma_bracketed(name: Seq<char>, k: Key)
    requires
        forall|i: int| 0 <= i < name.len() ==> name[i] != '>',
        parse_named_spec(name) == Some(k),
    ensures
        parse_from("<"@ + name + ">"@, 0) == seq![k],
{
    reveal_strlit("<");
    reveal_strlit(">");
    let cs = "<"@ + name + ">"@;
    let n = name.len() as int;
    assert(cs.len() == n + 2);
    assert(cs[0] == '<');
    assert(cs[n + 1] == '>');
    assert forall|i: int| 0 <= i <= n implies cs[i] != '>' by {
        if i > 0 {
            assert(cs[i] == name[i - 1]);
        }
    }
    crate::text::lemma_first_index_of(cs, '>', 0);
    let e = first_index_of(cs, '>', 0);
    assert(e == n + 1);
    assert(cs.subrange(1, e) =~= name);
    assert(parse_from(cs, e + 1) =~= Seq::<Key>::empty());
    assert(parse_from(cs, 0) =~= seq![k] + Seq::<Key>::empty());
}

/// Writing a key in nvim notation and reading it back gives the same key:
/// each named key (`<CR>`, `<Esc>`, `<Tab>`, `<S-Tab>`, `<BS>`, the arrows,
/// `<Home>`, `<End>`, `<PageUp>`, `<PageDown>`, `<Space>`) and every other
/// plain one-byte character. So every name reads as the key it names.
pub proof fn keys_read_back_as_written(code: KeyCode)
    requires
        code is Enter || code is Esc || code is Tab || code is BackTab || code is Backspace || code is Up || code is Down
            || code is Left || code is Right || code is Home || code is End || code is PageUp || code is PageDown
            || (code matches KeyCode::Char(c) && (c as int) < 0x80),
    ensures
        parse_from(render_spec(key_spec(code, NONE)), 0) == seq![key_spec(code, NONE)],
{
    reveal_strlit("leader");
    reveal_strlit("cr");
    reveal_strlit("enter");
    reveal_strlit("return");
    reveal_strlit("esc");
    reveal_strlit("tab");
    reveal_strlit("s-tab");
    reveal_strlit("bs");
    reveal_strlit("backspace");
    reveal_strlit("space");
    reveal_strlit("bslash");
    reveal_strlit("up");
    reveal_strlit("down");
    reveal_strlit("left");
    reveal_strlit("right");
    reveal_strlit("home");
    reveal_strlit("end");
    reveal_strlit("pageup");
    reveal_strlit("pagedown");
    reveal_strlit("<");
    reveal_strlit(">");
    reveal_strlit("C-");
    reveal_strlit("M-");
    assert(NONE & CONTROL == 0) by (bit_vector);
    assert(NONE & ALT == 0) by (bit_vector);
    assert(NONE & !SHIFT == 0) by (bit_vector);
    let k = key_spec(code, NONE);
    assert(k.mods == 0);
    match code {
        KeyCode::Char(c) => {
            if c == ' ' {
                reveal_strlit("Space");
                assert(base_name(code) == "Space"@);
                assert(ascii_lower_all("Space"@) =~= "space"@);
                lemma_bracketed("Space"@, k);
                assert(render_spec(k) =~= "<"@ + "Space"@ + ">"@);
            } else {
                let cs = seq![c];
                assert(render_spec(k) == cs);
                crate::text::lemma_first_index_of(cs, '>', 0);
                assert(parse_from(cs, 1) =~= Seq::<Key>::empty());
                assert(parse_from(cs, 0) =~= seq![key_spec(KeyCode::Char(c), NONE)] + Seq::<Key>::empty());
            }
        },
        KeyCode::Enter => {
            reveal_strlit("CR");
            assert(base_name(code) == "CR"@);
            assert(ascii_lower_all("CR"@) =~= "cr"@);
            lemma_bracketed("CR"@, key_spec(code, NONE));
        },
        KeyCode::Esc => {
            reveal_strlit("Esc");
            assert(base_name(code) == "Esc"@);
            assert(ascii_lower_all("Esc"@) =~= "esc"@);
            lemma_bracketed("Esc"@, key_spec(code, NONE));
        },
        KeyCode::Tab => {
            reveal_strlit("Tab");
            assert(base_name(code) == "Tab"@);
            assert(ascii_lower_all("Tab"@) =~= "tab"@);
            lemma_bracketed("Tab"@, key_spec(code, NONE));
        },
        KeyCode::BackTab => {
            reveal_strlit("S-Tab");
            assert(base_name(code) == "S-Tab"@);
            assert(ascii_lower_all("S-Tab"@) =~= "s-tab"@);
            lemma_bracketed("S-Tab"@, key_spec(code, NONE));
        },
        KeyCode::Backspace => {
            reveal_strlit("BS");
            assert(base_name(code) == "BS"@);
            assert(ascii_lower_all("BS"@) =~= "bs"@);
            lemma_bracketed("BS"@, key_spec(code, NONE));
        },
        KeyCode::Up => {
            reveal_strlit("Up");
            assert(base_name(code) == "Up"@);
            assert(ascii_lower_all("Up"@) =~= "up"@);
            lemma_bracketed("Up"@, key_spec(code, NONE));
        },
        KeyCode::Down => {
            reveal_strlit("Down");
            assert(base_name(code) == "Down"@);
            assert(ascii_lower_all("Down"@) =~= "down"@);
            lemma_bracketed("Down"@, key_spec(code, NONE));
        },
        KeyCode::Left => {
            reveal_strlit("Left");
            assert(base_name(code) == "Left"@);
            assert(ascii_lower_all("Left"@) =~= "left"@);
            lemma_bracketed("Left"@, key_spec(code, NONE));
        },
        KeyCode::Right => {
            reveal_strlit("Right");
            assert(base_name(code) == "Right"@);
            assert(ascii_lower_all("Right"@) =~= "right"@);
            lemma_bracketed("Right"@, key_spec(code, NONE));
        },
        KeyCode::Home => {
            reveal_strlit("Home");
            assert(base_name(code) == "Home"@);
            assert(ascii_lower_all("Home"@) =~= "home"@);
            lemma_bracketed("Home"@, key_spec(code, NONE));
        },
        KeyCode::End => {
            reveal_strlit("End");
            assert(base_name(code) == "End"@);
            assert(ascii_lower_all("End"@) =~= "end"@);
            lemma_bracketed("End"@, key_spec(code, NONE));
        },
        KeyCode::PageUp => {
            reveal_strlit("PageUp");
            assert(base_name(code) == "PageUp"@);
            assert(ascii_lower_all("PageUp"@) =~= "pageup"@);
            lemma_bracketed("PageUp"@, key_spec(code, NONE));
        },
        KeyCode::PageDown => {
            reveal_strlit("PageDown");
            assert(base_name(code) == "PageDown"@);
            assert(ascii_lower_all("PageDown"@) =~= "pagedown"@);
            lemma_bracketed("PageDown"@, key_spec(code, NONE));
        },
        _ => {},
    }
    if !(code is Char) {
        assert(render_spec(k) =~= "<"@ + base_name(code) + ">"@);
    }
}

} // verus!
