//! The commands of the palette, and the state of the palette and of the find bar.
use vstd::prelude::*;

use crate::search::SearchOpts;
use crate::text::contains;
use crate::text::holds;
use crate::text::lowercase;
use crate::text::to_lower;

verus! {

/// What can be run from the palette, by a key or by a tool.
#[derive(Clone, Copy, PartialEq, Eq, Debug, Structural)]
pub enum Command {
    Save,
    Close,
    Find,
    Undo,
    Redo,
    SelectAll,
    ToggleSidebar,
    NewFile,
    OpenSettings,
    OpenDefaultSettings,
    ToggleTerminal,
    OpenFolder,
    ColorTheme,
    FormatDocument,
    ToggleLineComment,
    GotoDefinition,
    GotoReferences,
    NextProblem,
    PrevProblem,
    RenameSymbol,
    NextEditor,
    PrevEditor,
    MarkdownPreview,
}

/// The number of commands that the palette lists.
pub const COMMAND_COUNT: usize = 13;

/// The commands that the palette lists, with their titles and keys.
pub open spec fn command_table() -> Seq<(Command, Seq<char>, Seq<char>)> {
    seq![
        (Command::Save, "File: Save"@, "Ctrl+S"@),
        (Command::NewFile, "File: New Untitled"@, ""@),
        (Command::OpenFolder, "File: Open Folder"@, "Ctrl+O"@),
        (Command::Close, "File: Close Tab"@, "Ctrl+W"@),
        (Command::Find, "Edit: Find"@, "Ctrl+F"@),
        (Command::Undo, "Edit: Undo"@, "Ctrl+Z"@),
        (Command::Redo, "Edit: Redo"@, "Ctrl+Y"@),
        (Command::SelectAll, "Edit: Select All"@, "Ctrl+A"@),
        (Command::ToggleSidebar, "View: Toggle Sidebar"@, ""@),
        (Command::OpenSettings, "Preferences: Open Settings (JSON)"@, ""@),
        (Command::OpenDefaultSettings, "Preferences: Open Default Settings (JSON)"@, ""@),
        (Command::ColorTheme, "Preferences: Color Theme"@, ""@),
        (Command::ToggleTerminal, "View: Toggle Terminal"@, "Ctrl+`"@),
    ]
}

/// The command of a row, its title and its key.
pub fn command_at(i: usize) -> (r: (Command, &'static str, &'static str))
    requires
        i < COMMAND_COUNT,
    ensures
        (r.0, r.1@, r.2@) == command_table()[i as int],
{
    let all: [(Command, &str, &str); 13] = [
        (Command::Save, "File: Save", "Ctrl+S"),
        (Command::NewFile, "File: New Untitled", ""),
        (Command::OpenFolder, "File: Open Folder", "Ctrl+O"),
        (Command::Close, "File: Close Tab", "Ctrl+W"),
        (Command::Find, "Edit: Find", "Ctrl+F"),
        (Command::Undo, "Edit: Undo", "Ctrl+Z"),
        (Command::Redo, "Edit: Redo", "Ctrl+Y"),
        (Command::SelectAll, "Edit: Select All", "Ctrl+A"),
        (Command::ToggleSidebar, "View: Toggle Sidebar", ""),
        (Command::OpenSettings, "Preferences: Open Settings (JSON)", ""),
        (Command::OpenDefaultSettings, "Preferences: Open Default Settings (JSON)", ""),
        (Command::ColorTheme, "Preferences: Color Theme", ""),
        (Command::ToggleTerminal, "View: Toggle Terminal", "Ctrl+`"),
    ];
    all[i]
}

/// What choosing an item of a quick pick does.
#[derive(Clone, Copy, PartialEq, Eq, Debug, Structural)]
pub enum PickKind {
    SetColorTheme,
}

/// One row of a list to pick from.
pub struct PickItem {
    /// What is shown, and what is committed.
    pub label: String,
    /// A hint at the right.
    pub detail: String,
    /// The line it leads to, from 1.
    pub line: Option<usize>,
}

impl PickItem {
    /// A row with a hint.
    pub fn new(label: &str, detail: &str) -> (r: PickItem)
        ensures
            r.label@ == label@,
            r.detail@ == detail@,
            r.line == None::<usize>,
    {
        PickItem { label: label.to_owned(), detail: detail.to_owned(), line: None }
    }

    /// A row that leads to a line.
    pub fn at_line(label: &str, detail: &str, line: usize) -> (r: PickItem)
        ensures
            r.label@ == label@,
            r.detail@ == detail@,
            r.line == Some(line),
    {
        PickItem { label: label.to_owned(), detail: detail.to_owned(), line: Some(line) }
    }
}

/// What the palette chooses from. All but the quick pick go by how the input begins.
#[derive(Clone, Copy, PartialEq, Eq, Debug, Structural)]
pub enum PaletteMode {
    /// `>`: a command to run.
    Commands,
    /// No mark: a file to go to.
    Files,
    /// `@`: a symbol of the active file to go to.
    Symbols,
    /// `:`: a line to go to.
    GoToLine,
    QuickPick(PickKind),
}

/// The most rows that the palette shows.
pub const MAX_ROWS: usize = 500;

/// The palette.
pub struct PaletteState {
    pub active: bool,
    pub selected: usize,
    /// The rows of the source that match.
    pub filtered: Vec<usize>,
    pub mode: PaletteMode,
    /// The source in every mode but that of the commands.
    pub items: Vec<PickItem>,
    /// How far the list is scrolled, as the bits of a single-precision number of pixels.
    pub scroll: u32,
    /// Whether the selection is to be scrolled into view.
    pub follow_selection: bool,
}

/// The first rows, up to `MAX_ROWS`, of the first `n` whose text holds the query.
pub open spec fn matching_rows(texts: Seq<Seq<char>>, q: Seq<char>, n: int) -> Seq<usize>
    decreases n,
{
    if n <= 0 {
        Seq::empty()
    } else {
        let rest = matching_rows(texts, q, n - 1);
        if rest.len() < MAX_ROWS && (q.len() == 0 || holds(lowercase(texts[n - 1]), q)) {
            rest.push((n - 1) as usize)
        } else {
            rest
        }
    }
}

proof fn lemma_matching_rows(texts: Seq<Seq<char>>, q: Seq<char>, n: int)
    requires
        0 <= n <= usize::MAX,
    ensures
        matching_rows(texts, q, n).len() <= n,
        matching_rows(texts, q, n).len() <= MAX_ROWS,
        forall|i: int|
            0 <= i < matching_rows(texts, q, n).len() ==> (#[trigger] matching_rows(texts, q, n)[i])
                < n,
    decreases n,
{
    if n > 0 {
        lemma_matching_rows(texts, q, n - 1);
    }
}

impl PaletteState {
    /// What the rows of the source show.
    pub open spec fn texts(&self) -> Seq<Seq<char>> {
        match self.mode {
            PaletteMode::Commands => Seq::new(
                COMMAND_COUNT as nat,
                |i: int| command_table()[i].1,
            ),
            _ => Seq::new(self.items@.len(), |i: int| self.items@[i].label@),
        }
    }

    /// Whether the rows are rows of the source and the selection is one of them.
    pub open spec fn wf(&self) -> bool {
        (forall|i: int|
            0 <= i < self.filtered@.len() ==> (#[trigger] self.filtered@[i]) < self.texts().len())
            && (self.selected < self.filtered@.len() || (self.filtered@.len() == 0 && self.selected
            == 0))
    }

    /// A closed palette over the commands.
    pub fn new() -> (r: PaletteState)
        ensures
            r.wf(),
            !r.active,
            r.selected == 0,
            r.filtered@ == Seq::new(COMMAND_COUNT as nat, |i: int| i as usize),
            r.mode == PaletteMode::Commands,
            r.items@.len() == 0,
            r.scroll == 0,
            r.follow_selection,
    {
        let mut filtered: Vec<usize> = Vec::new();
        let mut k: usize = 0;
        while k < COMMAND_COUNT
            invariant
                k <= COMMAND_COUNT,
                filtered@ == Seq::new(k as nat, |i: int| i as usize),
            decreases COMMAND_COUNT - k,
        {
            filtered.push(k);
            k = k + 1;
            assert(filtered@ =~= Seq::new(k as nat, |i: int| i as usize));
        }
        PaletteState {
            active: false,
            selected: 0,
            filtered,
            mode: PaletteMode::Commands,
            items: Vec::new(),
            scroll: 0,
            follow_selection: true,
        }
    }

    /// The number of rows of the source.
    fn source_len(&self) -> (r: usize)
        ensures
            r == self.texts().len(),
    {
        match self.mode {
            PaletteMode::Commands => COMMAND_COUNT,
            _ => self.items.len(),
        }
    }

    /// What a row of the source shows, in lower case.
    fn row_text(&self, i: usize) -> (r: String)
        requires
            i < self.texts().len(),
        ensures
            r@ == lowercase(self.texts()[i as int]),
    {
        match self.mode {
            PaletteMode::Commands => {
                let c = command_at(i);
                to_lower(c.1)
            },
            _ => to_lower(self.items[i].label.as_str()),
        }
    }

    /// Shows the rows that hold the query, whatever their case, from the top.
    pub fn refilter(&mut self, query: &str)
        ensures
            final(self).wf(),
            final(self).filtered@ == matching_rows(
                old(self).texts(),
                lowercase(query@),
                old(self).texts().len() as int,
            ),
            query@.len() == 0 ==> final(self).filtered@ == first_rows(old(self).texts().len()),
            final(self).selected == (if old(self).selected < final(self).filtered@.len() {
                old(self).selected as int
            } else if final(self).filtered@.len() > 0 {
                final(self).filtered@.len() - 1
            } else {
                0
            }),
            final(self).scroll == 0,
            final(self).follow_selection,
            final(self).active == old(self).active,
            final(self).mode == old(self).mode,
            final(self).items == old(self).items,
    {
        let q = to_lower(query);
        let ghost texts = self.texts();
        let n: usize = self.source_len();
        let mut rows: Vec<usize> = Vec::new();
        let mut k: usize = 0;
        while k < n
            invariant
                k <= n,
                n == texts.len(),
                texts == self.texts(),
                *self == *old(self),
                q@ == lowercase(query@),
                rows@ == matching_rows(texts, q@, k as int),
                rows@.len() <= MAX_ROWS,
            decreases n - k,
        {
            if rows.len() < MAX_ROWS {
                if q.as_str().is_empty() {
                    rows.push(k);
                } else {
                    let row = self.row_text(k);
                    if contains(row.as_str(), q.as_str()) {
                        rows.push(k);
                    }
                }
            }
            k = k + 1;
        }
        proof {
            lemma_matching_rows(texts, q@, n as int);
            if query@.len() == 0 {
                assert(q@ =~= Seq::empty());
                law_empty_query_shows_all(texts, n as int);
            }
        }
        let m: usize = rows.len();
        self.filtered = rows;
        if self.selected >= m {
            self.selected = if m > 0 {
                m - 1
            } else {
                0
            };
        }
        self.scroll = 0;
        self.follow_selection = true;
        assert(self.texts() == texts);
    }

    /// Opens the palette over the commands.
    pub fn open(&mut self)
        ensures
            final(self).wf(),
            final(self).active,
            final(self).selected == 0,
            final(self).mode == PaletteMode::Commands,
            final(self).items@.len() == 0,
            final(self).filtered@ == first_rows(COMMAND_COUNT as nat),
            final(self).scroll == 0,
            final(self).follow_selection,
    {
        proof {
            reveal_strlit("");
        }
        self.mode = PaletteMode::Commands;
        self.items = Vec::new();
        self.active = true;
        self.selected = 0;
        self.refilter("");
    }

    /// Opens the palette over a list, for one choice.
    pub fn open_quick_pick(&mut self, kind: PickKind, items: Vec<PickItem>)
        ensures
            final(self).wf(),
            final(self).active,
            final(self).selected == 0,
            final(self).mode == PaletteMode::QuickPick(kind),
            final(self).items == items,
            final(self).filtered@ == first_rows(items@.len()),
            final(self).scroll == 0,
            final(self).follow_selection,
    {
        proof {
            reveal_strlit("");
        }
        self.mode = PaletteMode::QuickPick(kind);
        self.items = items;
        self.active = true;
        self.selected = 0;
        self.refilter("");
    }

    /// Puts another source under the palette, and the selection at its top.
    pub fn set_source(&mut self, mode: PaletteMode, items: Vec<PickItem>)
        ensures
            final(self).wf(),
            final(self).active == old(self).active,
            final(self).selected == 0,
            final(self).mode == mode,
            final(self).items == items,
            final(self).filtered@ == first_rows(final(self).texts().len()),
            final(self).scroll == 0,
            final(self).follow_selection,
    {
        proof {
            reveal_strlit("");
        }
        self.mode = mode;
        self.items = items;
        self.selected = 0;
        self.refilter("");
    }

    /// The selected row of the list.
    pub fn selected_item(&self) -> (r: Option<&PickItem>)
        ensures
            match r {
                Some(it) => self.selected < self.filtered@.len()
                    && self.filtered@[self.selected as int] < self.items@.len() && *it
                    == self.items@[self.filtered@[self.selected as int] as int],
                None => self.selected >= self.filtered@.len()
                    || self.filtered@[self.selected as int] >= self.items@.len(),
            },
    {
        if self.selected < self.filtered.len() {
            let i: usize = self.filtered[self.selected];
            if i < self.items.len() {
                return Some(&self.items[i]);
            }
        }
        None
    }

    /// The selected choice of a quick pick.
    pub fn selected_pick(&self) -> (r: Option<(PickKind, String)>)
        ensures
            match r {
                Some((kind, label)) => self.mode == PaletteMode::QuickPick(kind) && self.selected
                    < self.filtered@.len() && self.filtered@[self.selected as int]
                    < self.items@.len() && label@
                    == self.items@[self.filtered@[self.selected as int] as int].label@,
                None => !(self.mode is QuickPick) || self.selected >= self.filtered@.len()
                    || self.filtered@[self.selected as int] >= self.items@.len(),
            },
    {
        match self.mode {
            PaletteMode::QuickPick(kind) => match self.selected_item() {
                Some(it) => Some((kind, it.label.as_str().to_owned())),
                None => None,
            },
            _ => None,
        }
    }

    /// Closes the palette.
    pub fn close(&mut self)
        ensures
            *final(self) == (PaletteState { active: false, ..*old(self) }),
    {
        self.active = false;
    }

    /// Moves the selection down, from the bottom to the top.
    pub fn select_next(&mut self)
        requires
            old(self).wf(),
        ensures
            final(self).wf(),
            *final(self) == (if old(self).filtered@.len() == 0 {
                *old(self)
            } else {
                PaletteState {
                    selected: next_of(old(self).selected, old(self).filtered@.len()),
                    follow_selection: true,
                    ..*old(self)
                }
            }),
    {
        let n: usize = self.filtered.len();
        if n > 0 {
            self.selected = if self.selected + 1 < n {
                self.selected + 1
            } else {
                0
            };
            self.follow_selection = true;
            assert(self.texts() =~= old(self).texts());
        }
    }

    /// Moves the selection up, from the top to the bottom.
    pub fn select_prev(&mut self)
        requires
            old(self).wf(),
        ensures
            final(self).wf(),
            *final(self) == (if old(self).filtered@.len() == 0 {
                *old(self)
            } else {
                PaletteState {
                    selected: prev_of(old(self).selected, old(self).filtered@.len()),
                    follow_selection: true,
                    ..*old(self)
                }
            }),
    {
        let n: usize = self.filtered.len();
        if n > 0 {
            self.selected = if self.selected == 0 {
                n - 1
            } else {
                self.selected - 1
            };
            self.follow_selection = true;
            assert(self.texts() =~= old(self).texts());
        }
    }

    /// The selected command, in the mode of the commands.
    pub fn selected_command(&self) -> (r: Option<Command>)
        requires
            self.wf(),
        ensures
            match r {
                Some(c) => self.mode == PaletteMode::Commands && self.selected
                    < self.filtered@.len() && c
                    == command_table()[self.filtered@[self.selected as int] as int].0,
                None => self.mode != PaletteMode::Commands || self.filtered@.len() == 0,
            },
    {
        match self.mode {
            PaletteMode::Commands => {
                if self.selected < self.filtered.len() {
                    let c = command_at(self.filtered[self.selected]);
                    Some(c.0)
                } else {
                    None
                }
            },
            _ => None,
        }
    }
}

/// The selection below `selected` among `n` rows.
pub open spec fn next_of(selected: usize, n: nat) -> usize {
    if selected + 1 < n {
        (selected + 1) as usize
    } else {
        0
    }
}

/// The selection above `selected` among `n` rows.
pub open spec fn prev_of(selected: usize, n: nat) -> usize {
    if selected == 0 {
        (n - 1) as usize
    } else {
        (selected - 1) as usize
    }
}

/// Moving the selection down and then up, or up and then down, leaves it where it was.
pub proof fn law_next_and_prev_undo_each_other(selected: usize, n: nat)
    requires
        selected < n <= usize::MAX,
    ensures
        prev_of(next_of(selected, n), n) == selected,
        next_of(prev_of(selected, n), n) == selected,
{
}

/// The first rows of a source of `n`, up to the limit, in order.
pub open spec fn first_rows(n: nat) -> Seq<usize> {
    Seq::new(
        if n < MAX_ROWS {
            n
        } else {
            MAX_ROWS as nat
        },
        |i: int| i as usize,
    )
}

/// An empty query shows every row of the source, up to the limit, in order.
pub proof fn law_empty_query_shows_all(texts: Seq<Seq<char>>, n: int)
    requires
        0 <= n <= usize::MAX,
    ensures
        matching_rows(texts, Seq::empty(), n) == first_rows(n as nat),
    decreases n,
{
    if n > 0 {
        law_empty_query_shows_all(texts, n - 1);
    }
    assert(matching_rows(texts, Seq::empty(), n) =~= first_rows(n as nat));
}

/// The find bar.
pub struct FindBarState {
    /// Whether the bar is shown.
    pub active: bool,
    /// Whether one of its inputs has the keyboard.
    pub focused: bool,
    /// Whether that is the input of the replacement.
    pub on_replace: bool,
    /// Whether the row of the replacement is shown.
    pub replace_open: bool,
    pub opts: SearchOpts,
    /// The byte ranges of the matches in the active document.
    pub matches: Vec<(usize, usize)>,
    /// The current match.
    pub index: Option<usize>,
}

impl FindBarState {
    /// A closed bar.
    pub fn new() -> (r: FindBarState)
        ensures
            !r.active && !r.focused && !r.on_replace && !r.replace_open,
            r.opts == (SearchOpts { case_sensitive: false, whole_word: false, regex: false }),
            r.matches@.len() == 0,
            r.index == None::<usize>,
    {
        FindBarState {
            active: false,
            focused: false,
            on_replace: false,
            replace_open: false,
            opts: SearchOpts { case_sensitive: false, whole_word: false, regex: false },
            matches: Vec::new(),
            index: None,
        }
    }
}

/// Whether a text holds a query, whatever the case; an empty one is held by every text.
pub open spec fn answers_query(text: Seq<char>, q: Seq<char>) -> bool {
    q.len() == 0 || holds(lowercase(text), q)
}

/// The rows that are shown are those whose text holds the query, whatever the case, in order, each
/// once; all of them where there are fewer than 500.
pub proof fn law_rows_that_match_are_shown(texts: Seq<Seq<char>>, q: Seq<char>, n: int)
    requires
        0 <= n <= texts.len() <= usize::MAX,
    ensures
        matching_rows(texts, q, n).len() <= 500,
        forall|i: int|
            0 <= i < matching_rows(texts, q, n).len() ==> (#[trigger] matching_rows(texts, q, n)[i]) < n
                && answers_query(texts[matching_rows(texts, q, n)[i] as int], q),
        forall|i: int, j: int|
            0 <= i < j < matching_rows(texts, q, n).len() ==> (#[trigger] matching_rows(texts, q, n)[i])
                < (#[trigger] matching_rows(texts, q, n)[j]),
        forall|k: int|
            matching_rows(texts, q, n).len() < 500 && 0 <= k < n && #[trigger] answers_query(
                texts[k],
                q,
            ) ==> exists|i: int|
                0 <= i < matching_rows(texts, q, n).len() && #[trigger] matching_rows(texts, q, n)[i]
                    == k,
    decreases n,
{
    if n > 0 {
        law_rows_that_match_are_shown(texts, q, n - 1);
        let rest = matching_rows(texts, q, n - 1);
        let all = matching_rows(texts, q, n);
        assert(forall|i: int| 0 <= i < rest.len() ==> all[i] == rest[i]);
        assert forall|k: int|
            all.len() < 500 && 0 <= k < n && #[trigger] answers_query(texts[k], q) implies exists|i: int|
            0 <= i < all.len() && #[trigger] all[i] == k by {
            if k < n - 1 {
                let i = choose|i: int| 0 <= i < rest.len() && #[trigger] rest[i] == k;
                assert(all[i] == k);
            } else {
                assert(all[all.len() - 1] == k);
            }
        }
    }
}

/// The selection goes down and up by one row, and from either end to the other.
pub proof fn law_selection_goes_round(selected: usize, n: nat)
    requires
        selected < n <= usize::MAX,
    ensures
        selected + 1 < n ==> next_of(selected, n) == selected + 1,
        selected + 1 == n ==> next_of(selected, n) == 0,
        selected > 0 ==> prev_of(selected, n) == selected - 1,
        selected == 0 ==> prev_of(selected, n) == n - 1,
{
}

} // verus!
