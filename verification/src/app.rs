//! Application state and the logic that changes it.
//!
//! Nothing here draws, starts threads or touches files. The front end reads
//! the state to draw it, forwards key presses, performs the fetches that are
//! asked for and hands their results back.
use crate::action::{planned, StringHashSet};
use crate::diff::{Category, DiffEntry, DiffEntryView};
use crate::keys::{KeyCode, ListState};
use crate::order::lemma_filter_all;
use crate::path::{join_path, joined_path};
use crate::source::{same_source, SourceSpec, SourceSpecView};
use crate::text::{chars_of, lemma_views_push, opt_view, string_of, trim, trimmed, views};
use vstd::prelude::*;

verus! {

/// `String::pop` removes the last character and returns it; an empty string
/// stays empty and gives `None`.
pub assume_specification[ String::pop ](s: &mut String) -> (r: Option<char>)
    ensures
        old(s)@.len() == 0 ==> r is None && final(s)@ == old(s)@,
        old(s)@.len() > 0 ==> r == Some(old(s)@.last()) && final(s)@ == old(s)@.drop_last(),
;

/// Which entries of the diff are shown.
#[derive(Debug, Clone, Copy, PartialEq, Eq, Structural)]
pub enum Filter {
    All,
    Install,
    Upgrade,
    Remove,
}

impl Filter {
    /// Entries of the category are shown.
    pub open spec fn shows(self, cat: Category) -> bool {
        match self {
            Filter::All => true,
            Filter::Install => cat == Category::Install,
            Filter::Upgrade => cat == Category::Upgrade,
            Filter::Remove => cat == Category::Remove,
        }
    }

    /// Tells whether entries of the category are shown.
    pub fn matches(self, cat: Category) -> (r: bool)
        ensures
            r == self.shows(cat),
    {
        match self {
            Filter::All => true,
            Filter::Install => cat == Category::Install,
            Filter::Upgrade => cat == Category::Upgrade,
            Filter::Remove => cat == Category::Remove,
        }
    }

    /// The name of the filter.
    pub fn label(self) -> (r: &'static str)
        ensures
            r@ == match self {
                Filter::All => "all"@,
                Filter::Install => "install"@,
                Filter::Upgrade => "upgrade"@,
                Filter::Remove => "remove"@,
            },
    {
        match self {
            Filter::All => "all",
            Filter::Install => "install",
            Filter::Upgrade => "upgrade",
            Filter::Remove => "remove",
        }
    }
}

/// What the diff screen is doing.
#[derive(Debug, Clone, Copy, PartialEq, Eq, Structural)]
pub enum Mode {
    Browse,
    Confirm,
}

/// What the user is typing.
#[derive(Debug, Clone, Copy, PartialEq, Eq, Structural)]
pub enum InputKind {
    Ssh,
    File,
}

/// A row of the source menu: a known source, or a prompt for a new one.
#[derive(Debug, PartialEq, Eq)]
pub enum MenuItem {
    Source(SourceSpec),
    NewSsh,
    NewFile,
}

/// What a `MenuItem` stands for.
pub enum MenuItemView {
    Source(SourceSpecView),
    NewSsh,
    NewFile,
}

impl View for MenuItem {
    type V = MenuItemView;

    open spec fn view(&self) -> MenuItemView {
        match self {
            MenuItem::Source(source) => MenuItemView::Source(source@),
            MenuItem::NewSsh => MenuItemView::NewSsh,
            MenuItem::NewFile => MenuItemView::NewFile,
        }
    }
}

impl Clone for MenuItem {
    fn clone(&self) -> (r: Self)
        ensures
            r@ == self@,
    {
        match self {
            MenuItem::Source(source) => MenuItem::Source(source.clone()),
            MenuItem::NewSsh => MenuItem::NewSsh,
            MenuItem::NewFile => MenuItem::NewFile,
        }
    }
}

/// The screen that is shown.
#[derive(Debug, Clone, PartialEq, Eq)]
pub enum Screen {
    /// The entry menu.
    Menu,
    /// Typing a host or a path.
    Input,
    /// Choosing among the sources of the command line.
    Picker,
    /// A fetch is under way.
    Loading,
    /// The diff.
    Diff,
    /// A fetch failed, with the message to show.
    Error(String),
}

/// What a `Screen` stands for.
pub enum ScreenView {
    Menu,
    Input,
    Picker,
    Loading,
    Diff,
    Error(Seq<char>),
}

impl View for Screen {
    type V = ScreenView;

    open spec fn view(&self) -> ScreenView {
        match self {
            Screen::Menu => ScreenView::Menu,
            Screen::Input => ScreenView::Input,
            Screen::Picker => ScreenView::Picker,
            Screen::Loading => ScreenView::Loading,
            Screen::Diff => ScreenView::Diff,
            Screen::Error(message) => ScreenView::Error(message@),
        }
    }
}

/// All the state of the running application.
pub struct App {
    /// The rows of the entry menu: known sources, then the prompts.
    pub menu_items: Vec<MenuItem>,
    /// The cursor of the entry menu.
    pub menu_state: ListState,
    /// The text that is being typed.
    pub input: String,
    /// What the text is for.
    pub input_kind: InputKind,
    /// The home directory, which `~/` in a typed path stands for.
    pub home: Option<String>,
    /// The sources of the command line.
    pub specs: Vec<SourceSpec>,
    /// The cursor of the picker.
    pub picker_state: ListState,
    /// The diff.
    pub entries: Vec<DiffEntry>,
    /// Which entries are shown.
    pub filter: Filter,
    /// The names of the ticked packages. They stay ticked while the diff is
    /// filtered, and where the same source is fetched again.
    pub selected: StringHashSet,
    /// The cursor among the shown entries.
    pub list_state: ListState,
    /// What the diff screen is doing.
    pub mode: Mode,
    /// The screen that is shown.
    pub screen: Screen,
    /// The application is to end.
    pub should_quit: bool,
    /// The source that was asked for last.
    current_spec: Option<SourceSpec>,
    /// The source that the diff is from.
    shown_spec: Option<SourceSpec>,
    /// The steps that the spinner has made.
    spinner: usize,
    /// The user confirmed; the commands are yet to be run.
    apply_requested: bool,
    /// A fetch that is yet to be started.
    pending_fetch: Option<SourceSpec>,
    /// Counts requested and cancelled fetches. A result counts only where the
    /// number is still the one that its fetch was started with.
    fetch_epoch: u64,
}

/// What an `App` stands for.
pub struct AppView {
    pub menu_items: Seq<MenuItemView>,
    pub menu_state: ListState,
    pub input: Seq<char>,
    pub input_kind: InputKind,
    pub home: Option<Seq<char>>,
    pub specs: Seq<SourceSpecView>,
    pub picker_state: ListState,
    pub entries: Seq<DiffEntryView>,
    pub filter: Filter,
    pub selected: Set<Seq<char>>,
    pub list_state: ListState,
    pub mode: Mode,
    pub screen: ScreenView,
    pub should_quit: bool,
    pub current_spec: Option<SourceSpecView>,
    pub shown_spec: Option<SourceSpecView>,
    pub spinner: usize,
    pub apply_requested: bool,
    pub pending_fetch: Option<SourceSpecView>,
    pub fetch_epoch: u64,
}

impl View for App {
    type V = AppView;

    closed spec fn view(&self) -> AppView {
        AppView {
            menu_items: views(self.menu_items@),
            menu_state: self.menu_state,
            input: self.input@,
            input_kind: self.input_kind,
            home: opt_view(self.home),
            specs: views(self.specs@),
            picker_state: self.picker_state,
            entries: views(self.entries@),
            filter: self.filter,
            selected: self.selected@,
            list_state: self.list_state,
            mode: self.mode,
            screen: self.screen@,
            should_quit: self.should_quit,
            current_spec: opt_view(self.current_spec),
            shown_spec: opt_view(self.shown_spec),
            spinner: self.spinner,
            apply_requested: self.apply_requested,
            pending_fetch: opt_view(self.pending_fetch),
            fetch_epoch: self.fetch_epoch,
        }
    }
}

// --- how the state changes ---------------------------------------------------
/// The cursor one row further, from the last row to the first.
pub open spec fn row_below(cursor: Option<usize>, len: nat) -> usize {
    match cursor {
        Some(i) if i + 1 < len => (i + 1) as usize,
        _ => 0,
    }
}

/// The cursor one row back, from the first row to the last.
pub open spec fn row_above(cursor: Option<usize>, len: nat) -> usize {
    match cursor {
        Some(i) if i > 0 => (i - 1) as usize,
        _ => (len - 1) as usize,
    }
}

/// The cursor `delta` rows further in a list of `len` rows that starts over at
/// its ends. A list without a cursor counts from its first row.
pub open spec fn row_wrapped(cursor: Option<usize>, delta: int, len: nat) -> usize {
    let current = match cursor {
        Some(i) => i as int,
        None => 0,
    };
    ((current + delta) % len as int) as usize
}

/// A path without the separators that it starts with.
pub open spec fn without_root(path: Seq<char>) -> Seq<char>
    decreases path.len(),
{
    if path.len() > 0 && path[0] == '/' {
        without_root(path.drop_first())
    } else {
        path
    }
}

/// A typed path, in which `~/` at the beginning stands for the home directory.
/// More separators behind it do not count.
pub open spec fn expanded(path: Seq<char>, home: Option<Seq<char>>) -> Seq<char> {
    match home {
        Some(dir) if path.len() >= 2 && path[0] == '~' && path[1] == '/' => joined_path(
            dir,
            without_root(path.skip(2)),
        ),
        _ => path,
    }
}

/// Some entry is about the package of that name.
pub open spec fn has_entry(entries: Seq<DiffEntryView>, name: Seq<char>) -> bool {
    exists|i: int| 0 <= i < entries.len() && (#[trigger] entries[i]).name == name
}

/// The spinner's frames.
pub open spec fn spinner_frames() -> Seq<char> {
    seq!['⠋', '⠙', '⠹', '⠸', '⠼', '⠴', '⠦', '⠧', '⠇', '⠏']
}

impl AppView {
    /// The state before anything was chosen or fetched.
    pub open spec fn initial(specs: Seq<SourceSpecView>) -> AppView {
        AppView {
            menu_items: Seq::empty(),
            menu_state: ListState::unselected(),
            input: Seq::empty(),
            input_kind: InputKind::Ssh,
            home: None,
            specs,
            picker_state: ListState::unselected().at(
                if specs.len() > 0 {
                    Some(0)
                } else {
                    None
                },
            ),
            entries: Seq::empty(),
            filter: Filter::All,
            selected: Set::empty(),
            list_state: ListState::unselected(),
            mode: Mode::Browse,
            screen: ScreenView::Picker,
            should_quit: false,
            current_spec: None,
            shown_spec: None,
            spinner: 0,
            apply_requested: false,
            pending_fetch: None,
            fetch_epoch: 0,
        }
    }

    /// The diff is from `source`.
    pub open spec fn is_shown(self, source: SourceSpecView) -> bool {
        match self.shown_spec {
            Some(shown) => same_source(shown, source),
            None => false,
        }
    }

    /// The diff is from the current source.
    pub open spec fn shows_current(self) -> bool {
        match self.current_spec {
            Some(source) => self.is_shown(source),
            None => false,
        }
    }

    /// A fetch from `source` is asked for; results of earlier ones are void.
    pub open spec fn requested(self, source: SourceSpecView) -> AppView {
        AppView {
            fetch_epoch: self.fetch_epoch.wrapping_add(1),
            current_spec: Some(source),
            pending_fetch: Some(source),
            spinner: 0,
            screen: ScreenView::Loading,
            ..self
        }
    }

    /// The current source, if any, is asked for again.
    pub open spec fn refreshed(self) -> AppView {
        match self.current_spec {
            Some(source) => self.requested(source),
            None => self,
        }
    }

    /// Where "back" leads.
    pub open spec fn entry_screen(self) -> ScreenView {
        if self.specs.len() == 0 {
            ScreenView::Menu
        } else {
            ScreenView::Picker
        }
    }

    /// Back at the choice of a source.
    pub open spec fn back(self) -> AppView {
        AppView { screen: self.entry_screen(), ..self }
    }

    /// The fetch under way is given up; its result is void.
    pub open spec fn cancelled(self) -> AppView {
        AppView { fetch_epoch: self.fetch_epoch.wrapping_add(1), ..self }.back()
    }

    /// A new diff of the current source is shown, with the cursor on its first
    /// entry. Where the diff before was from the same source, the ticks of the
    /// packages that are in the new one stay; all others go.
    pub open spec fn showing(self, entries: Seq<DiffEntryView>) -> AppView {
        AppView {
            entries,
            selected: if self.shows_current() {
                self.selected.filter(|name: Seq<char>| has_entry(entries, name))
            } else {
                Set::empty()
            },
            shown_spec: self.current_spec,
            filter: Filter::All,
            mode: Mode::Browse,
            list_state: ListState::unselected().at(
                if entries.len() > 0 {
                    Some(0)
                } else {
                    None
                },
            ),
            screen: ScreenView::Diff,
            ..self
        }
    }

    /// The result of a fetch arrived. It counts where no fetch was requested or
    /// cancelled since.
    pub open spec fn received(
        self,
        epoch: u64,
        result: Result<Seq<DiffEntryView>, Seq<char>>,
    ) -> AppView {
        if epoch != self.fetch_epoch {
            self
        } else {
            match result {
                Ok(entries) => self.showing(entries),
                Err(message) => AppView { screen: ScreenView::Error(message), ..self },
            }
        }
    }

    /// The entries that the filter shows.
    pub open spec fn visible(self) -> Seq<DiffEntryView> {
        self.entries.filter(|e: DiffEntryView| self.filter.shows(e.kind.category()))
    }

    /// The entry under the cursor.
    pub open spec fn selected_entry(self) -> Option<DiffEntryView> {
        match self.list_state.selected {
            Some(i) if i < self.visible().len() => Some(self.visible()[i as int]),
            _ => None,
        }
    }

    /// The diff cursor one entry further.
    pub open spec fn moved_down(self) -> AppView {
        let len = self.visible().len();
        AppView {
            list_state: self.list_state.at(
                if len == 0 {
                    None
                } else {
                    Some(row_below(self.list_state.selected, len))
                },
            ),
            ..self
        }
    }

    /// The diff cursor one entry back.
    pub open spec fn moved_up(self) -> AppView {
        let len = self.visible().len();
        AppView {
            list_state: self.list_state.at(
                if len == 0 {
                    None
                } else {
                    Some(row_above(self.list_state.selected, len))
                },
            ),
            ..self
        }
    }

    /// The package under the cursor is ticked, or its tick is taken away.
    pub open spec fn toggled(self) -> AppView {
        match self.selected_entry() {
            Some(e) => AppView {
                selected: if self.selected.contains(e.name) {
                    self.selected.remove(e.name)
                } else {
                    self.selected.insert(e.name)
                },
                ..self
            },
            None => self,
        }
    }

    /// Another filter is set; the cursor stays, or goes to the last entry that
    /// is shown.
    pub open spec fn filtered(self, filter: Filter) -> AppView {
        let now = AppView { filter, ..self };
        let len = now.visible().len();
        let cursor = match self.list_state.selected {
            Some(i) => i,
            None => 0,
        };
        AppView {
            list_state: self.list_state.at(
                if len == 0 {
                    None
                } else if cursor < len {
                    Some(cursor)
                } else {
                    Some((len - 1) as usize)
                },
            ),
            ..now
        }
    }

    /// The picker cursor `delta` rows further.
    pub open spec fn picker_moved(self, delta: int) -> AppView {
        if self.specs.len() == 0 {
            self
        } else {
            AppView {
                picker_state: self.picker_state.at(
                    Some(row_wrapped(self.picker_state.selected, delta, self.specs.len())),
                ),
                ..self
            }
        }
    }

    /// The source under the picker cursor is asked for.
    pub open spec fn picked(self) -> AppView {
        match self.picker_state.selected {
            Some(i) if i < self.specs.len() => self.requested(self.specs[i as int]),
            _ => self,
        }
    }

    /// The menu cursor `delta` rows further.
    pub open spec fn menu_moved(self, delta: int) -> AppView {
        if self.menu_items.len() == 0 {
            self
        } else {
            AppView {
                menu_state: self.menu_state.at(
                    Some(row_wrapped(self.menu_state.selected, delta, self.menu_items.len())),
                ),
                ..self
            }
        }
    }

    /// A host or a path is asked for.
    pub open spec fn typing(self, kind: InputKind) -> AppView {
        AppView { input_kind: kind, input: Seq::empty(), screen: ScreenView::Input, ..self }
    }

    /// The row under the menu cursor is chosen.
    pub open spec fn menu_chosen(self) -> AppView {
        let i = match self.menu_state.selected {
            Some(i) => i as int,
            None => 0,
        };
        if i < self.menu_items.len() {
            match self.menu_items[i] {
                MenuItemView::Source(source) => self.requested(source),
                MenuItemView::NewSsh => self.typing(InputKind::Ssh),
                MenuItemView::NewFile => self.typing(InputKind::File),
            }
        } else {
            self
        }
    }

    /// The typed text is taken as a source; a blank one is not.
    pub open spec fn submitted(self) -> AppView {
        let text = trimmed(self.input);
        if text.len() == 0 {
            self
        } else {
            self.requested(
                match self.input_kind {
                    InputKind::Ssh => SourceSpecView::Ssh(text),
                    InputKind::File => SourceSpecView::File(expanded(text, self.home)),
                },
            )
        }
    }

    /// The application is to end.
    pub open spec fn quitting(self) -> AppView {
        AppView { should_quit: true, ..self }
    }

    /// A key was pressed in the entry menu.
    pub open spec fn menu_key(self, code: KeyCode) -> AppView {
        match code {
            KeyCode::Char('q') | KeyCode::Esc => self.quitting(),
            KeyCode::Down | KeyCode::Char('j') => self.menu_moved(1),
            KeyCode::Up | KeyCode::Char('k') => self.menu_moved(-1),
            KeyCode::Enter => self.menu_chosen(),
            _ => self,
        }
    }

    /// A key was pressed while typing.
    pub open spec fn input_key(self, code: KeyCode) -> AppView {
        match code {
            KeyCode::Esc => AppView { screen: ScreenView::Menu, ..self },
            KeyCode::Backspace => AppView {
                input: if self.input.len() > 0 {
                    self.input.drop_last()
                } else {
                    self.input
                },
                ..self
            },
            KeyCode::Enter => self.submitted(),
            KeyCode::Char(c) => AppView { input: self.input.push(c), ..self },
            _ => self,
        }
    }

    /// A key was pressed in the picker.
    pub open spec fn picker_key(self, code: KeyCode) -> AppView {
        match code {
            KeyCode::Char('q') | KeyCode::Esc => self.quitting(),
            KeyCode::Down | KeyCode::Char('j') => self.picker_moved(1),
            KeyCode::Up | KeyCode::Char('k') => self.picker_moved(-1),
            KeyCode::Enter => self.picked(),
            _ => self,
        }
    }

    /// A key was pressed during a fetch.
    pub open spec fn loading_key(self, code: KeyCode) -> AppView {
        match code {
            KeyCode::Char('q') => self.quitting(),
            KeyCode::Esc => self.cancelled(),
            _ => self,
        }
    }

    /// A key was pressed in the diff.
    pub open spec fn browse_key(self, code: KeyCode) -> AppView {
        match code {
            KeyCode::Char('q') => self.quitting(),
            KeyCode::Esc => self.back(),
            KeyCode::Down | KeyCode::Char('j') => self.moved_down(),
            KeyCode::Up | KeyCode::Char('k') => self.moved_up(),
            KeyCode::Tab | KeyCode::Char(' ') => self.toggled(),
            KeyCode::Char('a') => self.filtered(Filter::All),
            KeyCode::Char('i') => self.filtered(Filter::Install),
            KeyCode::Char('u') => self.filtered(Filter::Upgrade),
            KeyCode::Char('r') => self.filtered(Filter::Remove),
            KeyCode::Char('R') | KeyCode::F(5) => self.refreshed(),
            KeyCode::Enter => if self.selected.is_empty() {
                self
            } else {
                AppView { mode: Mode::Confirm, ..self }
            },
            _ => self,
        }
    }

    /// A key was pressed on the confirm screen.
    pub open spec fn confirm_key(self, code: KeyCode) -> AppView {
        match code {
            KeyCode::Char('y') | KeyCode::Enter => AppView {
                apply_requested: true,
                mode: Mode::Browse,
                ..self
            },
            KeyCode::Char('n') | KeyCode::Esc => AppView { mode: Mode::Browse, ..self },
            _ => self,
        }
    }

    /// A key was pressed after a failed fetch.
    pub open spec fn error_key(self, code: KeyCode) -> AppView {
        match code {
            KeyCode::Char('q') => self.quitting(),
            _ => self.back(),
        }
    }

    /// A key was pressed.
    pub open spec fn key(self, code: KeyCode) -> AppView {
        match self.screen {
            ScreenView::Menu => self.menu_key(code),
            ScreenView::Input => self.input_key(code),
            ScreenView::Picker => self.picker_key(code),
            ScreenView::Loading => self.loading_key(code),
            ScreenView::Diff => match self.mode {
                Mode::Browse => self.browse_key(code),
                Mode::Confirm => self.confirm_key(code),
            },
            ScreenView::Error(_) => self.error_key(code),
        }
    }
}

// --- the state itself --------------------------------------------------------
/// A fetch result seen through the views of its parts.
pub open spec fn result_view(r: Result<Vec<DiffEntry>, String>) -> Result<
    Seq<DiffEntryView>,
    Seq<char>,
> {
    match r {
        Ok(entries) => Ok(views(entries@)),
        Err(message) => Err(message@),
    }
}

/// Expands `~/` at the beginning of a path to the home directory, where that is
/// known.
pub fn expand_tilde(path: &str, home: Option<&str>) -> (r: String)
    ensures
        r@ == expanded(
            path@,
            match home {
                Some(dir) => Some(dir@),
                None => None,
            },
        ),
{
    let chars: Vec<char> = chars_of(path);
    if let Some(dir) = home {
        if chars.len() >= 2 && chars[0] == '~' && chars[1] == '/' {
            let mut from: usize = 2;
            while from < chars.len() && chars[from] == '/'
                invariant
                    2 <= from <= chars@.len(),
                    without_root(chars@.skip(2)) == without_root(chars@.skip(from as int)),
                decreases chars@.len() - from,
            {
                proof {
                    assert(chars@.skip(from as int).drop_first() =~= chars@.skip(from + 1));
                }
                from = from + 1;
            }
            let rest = string_of(chars.as_slice(), from, chars.len());
            proof {
                assert(rest@ =~= chars@.skip(from as int));
            }
            return join_path(dir, rest.as_str());
        }
    }
    path.to_owned()
}

/// The cursor one row further, or one back where `back` is set, in a list of
/// `len` rows that starts over at its ends.
fn wrapped_row(cursor: Option<usize>, back: bool, len: usize) -> (r: usize)
    requires
        len > 0,
    ensures
        r == row_wrapped(
            cursor,
            if back {
                -1
            } else {
                1
            },
            len as nat,
        ),
        r < len,
{
    let current: usize = match cursor {
        Some(i) => i,
        None => 0,
    };
    let row: usize = current % len;
    let ghost m = len as int;
    let ghost c = current as int;
    if back {
        if row == 0 {
            proof {
                assert((c - 1) % m == m - 1) by (nonlinear_arith)
                    requires
                        c % m == 0,
                        m > 0,
                ;
            }
            len - 1
        } else {
            proof {
                assert((c - 1) % m == c % m - 1) by (nonlinear_arith)
                    requires
                        c % m > 0,
                        m > 0,
                ;
            }
            row - 1
        }
    } else {
        if row == len - 1 {
            proof {
                assert((c + 1) % m == 0) by (nonlinear_arith)
                    requires
                        c % m == m - 1,
                        m > 0,
                ;
            }
            0
        } else {
            proof {
                assert((c + 1) % m == c % m + 1) by (nonlinear_arith)
                    requires
                        c % m < m - 1,
                        m > 0,
                ;
            }
            row + 1
        }
    }
}

impl App {
    /// Starts at the picker. A single source is fetched at once.
    pub fn new(specs: Vec<SourceSpec>) -> (r: Self)
        ensures
            r@ == if specs@.len() == 1 {
                AppView::initial(views(specs@)).requested(specs@[0]@)
            } else {
                AppView::initial(views(specs@))
            },
    {
        let mut picker_state = ListState::default();
        if specs.len() > 0 {
            picker_state.select(Some(0));
        }
        let mut app = App {
            menu_items: Vec::new(),
            menu_state: ListState::default(),
            input: String::new(),
            input_kind: InputKind::Ssh,
            home: None,
            specs,
            picker_state,
            entries: Vec::new(),
            filter: Filter::All,
            selected: StringHashSet::new(),
            list_state: ListState::default(),
            mode: Mode::Browse,
            screen: Screen::Picker,
            should_quit: false,
            current_spec: None,
            shown_spec: None,
            spinner: 0,
            apply_requested: false,
            pending_fetch: None,
            fetch_epoch: 0,
        };
        proof {
            assert(views(app.menu_items@) =~= Seq::<MenuItemView>::empty());
            assert(views(app.entries@) =~= Seq::<DiffEntryView>::empty());
            assert(app@ == AppView::initial(views(specs@)));
        }
        if app.specs.len() == 1 {
            let source = app.specs[0].clone();
            app.request_fetch(source);
        }
        app
    }

    /// Starts in the diff screen with the given entries.
    pub fn demo(entries: Vec<DiffEntry>) -> (r: Self)
        ensures
            r@ == AppView::initial(Seq::empty()).showing(views(entries@)),
    {
        let none: Vec<SourceSpec> = Vec::new();
        proof {
            assert(views(none@) =~= Seq::<SourceSpecView>::empty());
        }
        let mut app = App::new(none);
        app.set_diff(entries);
        app
    }

    /// Starts at the entry menu: the known sources, then the two prompts for a
    /// new one.
    pub fn interactive(known: Vec<SourceSpec>) -> (r: Self)
        ensures
            r@ == (AppView {
                menu_items: views(known@).map_values(
                    |source: SourceSpecView| MenuItemView::Source(source),
                ) + seq![MenuItemView::NewSsh, MenuItemView::NewFile],
                menu_state: ListState::unselected().at(Some(0)),
                screen: ScreenView::Menu,
                ..AppView::initial(Seq::empty())
            }),
    {
        let none: Vec<SourceSpec> = Vec::new();
        proof {
            assert(views(none@) =~= Seq::<SourceSpecView>::empty());
        }
        let mut app = App::new(none);
        let ghost f = |source: SourceSpecView| MenuItemView::Source(source);
        let ghost all = views(known@);
        let mut items: Vec<MenuItem> = Vec::new();
        let mut i: usize = 0;
        while i < known.len()
            invariant
                i <= known@.len(),
                all == views(known@),
                f == (|source: SourceSpecView| MenuItemView::Source(source)),
                views(items@) =~= all.take(i as int).map_values(f),
            decreases known@.len() - i,
        {
            let item = MenuItem::Source(known[i].clone());
            proof {
                lemma_views_push(items@, item);
                assert(all.take(i + 1) =~= all.take(i as int).push(all[i as int]));
            }
            items.push(item);
            i = i + 1;
        }
        items.push(MenuItem::NewSsh);
        items.push(MenuItem::NewFile);
        proof {
            assert(all.take(i as int) =~= all);
            assert(views(items@) =~= all.map_values(f) + seq![
                MenuItemView::NewSsh,
                MenuItemView::NewFile,
            ]);
        }
        app.menu_items = items;
        app.menu_state.select(Some(0));
        app.screen = Screen::Menu;
        app
    }

    // --- fetching ------------------------------------------------------------
    /// Asks for a fetch and shows that it is under way.
    fn request_fetch(&mut self, source: SourceSpec)
        ensures
            final(self)@ == old(self)@.requested(source@),
    {
        self.fetch_epoch = self.fetch_epoch.wrapping_add(1);
        self.current_spec = Some(source.clone());
        self.pending_fetch = Some(source);
        self.spinner = 0;
        self.screen = Screen::Loading;
    }

    /// Asks for the current source again; nothing happens without one.
    pub fn refresh(&mut self)
        ensures
            final(self)@ == old(self)@.refreshed(),
    {
        let current = match &self.current_spec {
            Some(source) => Some(source.clone()),
            None => None,
        };
        if let Some(source) = current {
            self.request_fetch(source);
        }
    }

    /// Takes the fetch that is to be started, if any.
    pub fn take_fetch_request(&mut self) -> (r: Option<SourceSpec>)
        ensures
            opt_view(r) == old(self)@.pending_fetch,
            final(self)@ == (AppView { pending_fetch: None, ..old(self)@ }),
    {
        self.pending_fetch.take()
    }

    /// The number to start a fetch with.
    pub fn current_epoch(&self) -> (r: u64)
        ensures
            r == self@.fetch_epoch,
    {
        self.fetch_epoch
    }

    /// Takes the result of the fetch that was started with the number `epoch`.
    pub fn on_fetch_result(&mut self, epoch: u64, result: Result<Vec<DiffEntry>, String>)
        ensures
            final(self)@ == old(self)@.received(epoch, result_view(result)),
    {
        if epoch != self.fetch_epoch {
            return;
        }
        match result {
            Ok(entries) => self.set_diff(entries),
            Err(message) => {
                self.screen = Screen::Error(message);
            },
        }
    }

    /// Gives up the fetch under way.
    fn cancel_fetch(&mut self)
        ensures
            final(self)@ == old(self)@.cancelled(),
    {
        self.fetch_epoch = self.fetch_epoch.wrapping_add(1);
        self.screen = self.entry_screen();
    }

    /// Where "back" leads: the menu, or the picker where the command line named
    /// sources.
    fn entry_screen(&self) -> (r: Screen)
        ensures
            r@ == self@.entry_screen(),
    {
        if self.specs.len() == 0 {
            Screen::Menu
        } else {
            Screen::Picker
        }
    }

    /// The names of the entries that are ticked.
    fn ticked_among(&self, entries: &[DiffEntry]) -> (r: StringHashSet)
        ensures
            r@ == self@.selected.filter(|name: Seq<char>| has_entry(views(entries@), name)),
    {
        let ghost all = views(entries@);
        let mut ticked = StringHashSet::new();
        let mut i: usize = 0;
        while i < entries.len()
            invariant
                i <= entries@.len(),
                all == views(entries@),
                forall|name: Seq<char>| #[trigger]
                    ticked@.contains(name) <==> self@.selected.contains(name) && has_entry(
                        all.take(i as int),
                        name,
                    ),
            decreases entries@.len() - i,
        {
            let entry: &DiffEntry = &entries[i];
            let ghost before = ticked@;
            if self.selected.contains(entry.name.as_str()) {
                ticked.insert(entry.name.clone());
            }
            proof {
                let so_far = all.take(i as int);
                let now = all.take(i + 1);
                assert(now[i as int] == entry@);
                assert forall|name: Seq<char>| #[trigger]
                    ticked@.contains(name) <==> self@.selected.contains(name) && has_entry(
                        now,
                        name,
                    ) by {
                    assert(before.contains(name) <==> self@.selected.contains(name) && has_entry(
                        so_far,
                        name,
                    ));
                    if has_entry(so_far, name) {
                        let k = choose|k: int|
                            0 <= k < so_far.len() && (#[trigger] so_far[k]).name == name;
                        assert(now[k].name == name);
                    }
                    if has_entry(now, name) && name != entry@.name {
                        let k = choose|k: int| 0 <= k < now.len() && (#[trigger] now[k]).name == name;
                        assert(so_far[k].name == name);
                    }
                }
            }
            i = i + 1;
        }
        proof {
            assert(all.take(i as int) =~= all);
            assert(ticked@ =~= self@.selected.filter(|name: Seq<char>| has_entry(all, name)));
        }
        ticked
    }

    /// Shows a new diff.
    fn set_diff(&mut self, entries: Vec<DiffEntry>)
        ensures
            final(self)@ == old(self)@.showing(views(entries@)),
    {
        let same = match (&self.shown_spec, &self.current_spec) {
            (Some(shown), Some(current)) => *shown == *current,
            _ => false,
        };
        if same {
            let ticked = self.ticked_among(entries.as_slice());
            self.selected = ticked;
        } else {
            self.selected.clear();
        }
        self.shown_spec = match &self.current_spec {
            Some(current) => Some(current.clone()),
            None => None,
        };
        self.entries = entries;
        self.filter = Filter::All;
        self.mode = Mode::Browse;
        self.list_state = ListState::default();
        if self.entries.len() > 0 {
            self.list_state.select(Some(0));
        }
        self.screen = Screen::Diff;
    }

    /// Lets the spinner make a step.
    pub fn tick(&mut self)
        ensures
            final(self)@ == (AppView { spinner: old(self)@.spinner.wrapping_add(1), ..old(self)@ }),
    {
        self.spinner = self.spinner.wrapping_add(1);
    }

    /// The frame of the spinner to draw.
    pub fn spinner_frame(&self) -> (r: char)
        ensures
            r == spinner_frames()[self@.spinner as int % 10],
    {
        let frames: [char; 10] = ['⠋', '⠙', '⠹', '⠸', '⠼', '⠴', '⠦', '⠧', '⠇', '⠏'];
        frames[self.spinner % 10]
    }

    /// The label of the source that is being fetched.
    pub fn loading_label(&self) -> (r: String)
        ensures
            r@ == match self@.current_spec {
                Some(source) => source.label(),
                None => "…"@,
            },
    {
        match &self.current_spec {
            Some(source) => source.label(),
            None => "…".to_owned(),
        }
    }
}

impl App {
    // --- the diff ------------------------------------------------------------
    /// The entries that the filter shows, in order.
    pub fn visible(&self) -> (r: Vec<&DiffEntry>)
        ensures
            r@.map_values(|e: &DiffEntry| e@) == self@.visible(),
    {
        let ghost all = views(self.entries@);
        let ghost p = |e: DiffEntryView| self@.filter.shows(e.kind.category());
        let ghost v = |e: &DiffEntry| e@;
        let mut out: Vec<&DiffEntry> = Vec::new();
        let mut i: usize = 0;
        proof {
            reveal(Seq::filter);
            assert(out@.map_values(v) =~= all.take(0).filter(p));
        }
        while i < self.entries.len()
            invariant
                i <= self.entries@.len(),
                all == views(self.entries@),
                p == (|e: DiffEntryView| self@.filter.shows(e.kind.category())),
                v == (|e: &DiffEntry| e@),
                out@.map_values(v) == all.take(i as int).filter(p),
            decreases self.entries@.len() - i,
        {
            let entry: &DiffEntry = &self.entries[i];
            proof {
                reveal(Seq::filter);
                assert(all.take(i + 1).drop_last() =~= all.take(i as int));
                assert(all.take(i + 1).last() == entry@);
            }
            if self.filter.matches(entry.kind.category()) {
                proof {
                    assert(out@.push(entry).map_values(v) =~= out@.map_values(v).push(entry@));
                }
                out.push(entry);
            }
            i = i + 1;
        }
        proof {
            assert(all.take(i as int) =~= all);
        }
        out
    }

    /// The number of entries that the filter shows.
    fn visible_len(&self) -> (r: usize)
        ensures
            r == self@.visible().len(),
    {
        let shown = self.visible();
        proof {
            assert(shown@.map_values(|e: &DiffEntry| e@).len() == shown@.len());
        }
        shown.len()
    }

    /// The entry under the cursor.
    pub fn selected_entry(&self) -> (r: Option<&DiffEntry>)
        ensures
            match r {
                Some(e) => self@.selected_entry() == Some(e@),
                None => self@.selected_entry() is None,
            },
    {
        let shown = self.visible();
        proof {
            assert(shown@.map_values(|e: &DiffEntry| e@).len() == shown@.len());
        }
        match self.list_state.selected() {
            Some(i) => {
                if i < shown.len() {
                    proof {
                        assert(shown@.map_values(|e: &DiffEntry| e@)[i as int] == shown@[i as int]@);
                    }
                    Some(shown[i])
                } else {
                    None
                }
            },
            None => None,
        }
    }

    /// Tells whether a package is ticked.
    pub fn is_selected(&self, name: &str) -> (r: bool)
        ensures
            r == self@.selected.contains(name@),
    {
        self.selected.contains(name)
    }

    /// Moves the cursor one entry down, from the last entry to the first.
    pub fn move_down(&mut self)
        ensures
            final(self)@ == old(self)@.moved_down(),
    {
        let len: usize = self.visible_len();
        if len == 0 {
            self.list_state.select(None);
            return;
        }
        let next: usize = match self.list_state.selected() {
            Some(i) => {
                if i < len - 1 {
                    i + 1
                } else {
                    0
                }
            },
            None => 0,
        };
        self.list_state.select(Some(next));
    }

    /// Moves the cursor one entry up, from the first entry to the last.
    pub fn move_up(&mut self)
        ensures
            final(self)@ == old(self)@.moved_up(),
    {
        let len: usize = self.visible_len();
        if len == 0 {
            self.list_state.select(None);
            return;
        }
        let prev: usize = match self.list_state.selected() {
            Some(i) => {
                if i > 0 {
                    i - 1
                } else {
                    len - 1
                }
            },
            None => len - 1,
        };
        self.list_state.select(Some(prev));
    }

    /// Ticks the package under the cursor, or takes its tick away.
    pub fn toggle_current(&mut self)
        ensures
            final(self)@ == old(self)@.toggled(),
    {
        let current = match self.selected_entry() {
            Some(entry) => Some(entry.name.clone()),
            None => None,
        };
        if let Some(name) = current {
            if !self.selected.remove(name.as_str()) {
                proof {
                    assert(old(self)@.selected.remove(name@) =~= old(self)@.selected);
                }
                self.selected.insert(name);
            }
        }
    }

    /// Sets the filter; the cursor stays among the entries that are shown.
    pub fn set_filter(&mut self, filter: Filter)
        ensures
            final(self)@ == old(self)@.filtered(filter),
    {
        self.filter = filter;
        let len: usize = self.visible_len();
        if len == 0 {
            self.list_state.select(None);
        } else {
            let cursor: usize = match self.list_state.selected() {
                Some(i) => i,
                None => 0,
            };
            if cursor < len {
                self.list_state.select(Some(cursor));
            } else {
                self.list_state.select(Some(len - 1));
            }
        }
    }

    // --- the picker ----------------------------------------------------------
    /// Moves the picker cursor one row down, or up where `back` is set.
    fn picker_move(&mut self, back: bool)
        ensures
            final(self)@ == old(self)@.picker_moved(
                if back {
                    -1
                } else {
                    1
                },
            ),
    {
        let len: usize = self.specs.len();
        if len == 0 {
            return;
        }
        let next: usize = wrapped_row(self.picker_state.selected(), back, len);
        self.picker_state.select(Some(next));
    }

    /// Asks for the source under the picker cursor.
    fn picker_select(&mut self)
        ensures
            final(self)@ == old(self)@.picked(),
    {
        if let Some(i) = self.picker_state.selected() {
            if i < self.specs.len() {
                let source = self.specs[i].clone();
                self.request_fetch(source);
            }
        }
    }

    // --- keys ----------------------------------------------------------------
    /// Changes the state as a key press asks for, depending on the screen.
    pub fn handle_key(&mut self, code: KeyCode)
        ensures
            final(self)@ == old(self)@.key(code),
    {
        match self.screen {
            Screen::Menu => self.handle_menu_key(code),
            Screen::Input => self.handle_input_key(code),
            Screen::Picker => self.handle_picker_key(code),
            Screen::Loading => match code {
                KeyCode::Char('q') => {
                    self.should_quit = true;
                },
                KeyCode::Esc => self.cancel_fetch(),
                _ => {},
            },
            Screen::Diff => match self.mode {
                Mode::Browse => self.handle_browse_key(code),
                Mode::Confirm => self.handle_confirm_key(code),
            },
            Screen::Error(_) => match code {
                KeyCode::Char('q') => {
                    self.should_quit = true;
                },
                _ => {
                    self.screen = self.entry_screen();
                },
            },
        }
    }

    /// Changes the state as an event of the keyboard asks for. Only presses
    /// count, and Control with `c` ends the application from anywhere.
    pub fn handle_event(&mut self, press: bool, control: bool, code: KeyCode)
        ensures
            final(self)@ == if !press {
                old(self)@
            } else if control && code == KeyCode::Char('c') {
                old(self)@.quitting()
            } else {
                old(self)@.key(code)
            },
    {
        if press {
            if control && code == KeyCode::Char('c') {
                self.should_quit = true;
            } else {
                self.handle_key(code);
            }
        }
    }

    /// Changes the state as a key press in the entry menu asks for.
    fn handle_menu_key(&mut self, code: KeyCode)
        ensures
            final(self)@ == old(self)@.menu_key(code),
    {
        match code {
            KeyCode::Char('q') | KeyCode::Esc => {
                self.should_quit = true;
            },
            KeyCode::Down | KeyCode::Char('j') => self.menu_move(false),
            KeyCode::Up | KeyCode::Char('k') => self.menu_move(true),
            KeyCode::Enter => {
                let i: usize = match self.menu_state.selected() {
                    Some(i) => i,
                    None => 0,
                };
                if i < self.menu_items.len() {
                    proof {
                        assert(views(self.menu_items@)[i as int] == self.menu_items@[i as int]@);
                    }
                    match self.menu_items[i].clone() {
                        MenuItem::Source(source) => self.request_fetch(source),
                        MenuItem::NewSsh => self.start_input(InputKind::Ssh),
                        MenuItem::NewFile => self.start_input(InputKind::File),
                    }
                }
            },
            _ => {},
        }
    }

    /// Moves the menu cursor one row down, or up where `back` is set.
    fn menu_move(&mut self, back: bool)
        ensures
            final(self)@ == old(self)@.menu_moved(
                if back {
                    -1
                } else {
                    1
                },
            ),
    {
        let len: usize = self.menu_items.len();
        if len == 0 {
            return;
        }
        let next: usize = wrapped_row(self.menu_state.selected(), back, len);
        self.menu_state.select(Some(next));
    }

    /// Starts to ask for a host or a path.
    fn start_input(&mut self, kind: InputKind)
        ensures
            final(self)@ == old(self)@.typing(kind),
    {
        self.input_kind = kind;
        self.input = String::new();
        self.screen = Screen::Input;
    }

    /// Changes the state as a key press while typing asks for.
    fn handle_input_key(&mut self, code: KeyCode)
        ensures
            final(self)@ == old(self)@.input_key(code),
    {
        match code {
            KeyCode::Esc => {
                self.screen = Screen::Menu;
            },
            KeyCode::Backspace => {
                let _ = self.input.pop();
            },
            KeyCode::Enter => self.submit_input(),
            KeyCode::Char(c) => self.input.push(c),
            _ => {},
        }
    }

    /// Takes the typed text as a source and asks for it; a blank text is
    /// ignored.
    fn submit_input(&mut self)
        ensures
            final(self)@ == old(self)@.submitted(),
    {
        let text = trim(self.input.as_str());
        if text.as_str().is_empty() {
            return;
        }
        let source = match self.input_kind {
            InputKind::Ssh => SourceSpec::Ssh(text),
            InputKind::File => {
                let path = match &self.home {
                    Some(dir) => expand_tilde(text.as_str(), Some(dir.as_str())),
                    None => expand_tilde(text.as_str(), None),
                };
                SourceSpec::File(path)
            },
        };
        self.request_fetch(source);
    }

    /// Changes the state as a key press in the picker asks for.
    fn handle_picker_key(&mut self, code: KeyCode)
        ensures
            final(self)@ == old(self)@.picker_key(code),
    {
        match code {
            KeyCode::Char('q') | KeyCode::Esc => {
                self.should_quit = true;
            },
            KeyCode::Down | KeyCode::Char('j') => self.picker_move(false),
            KeyCode::Up | KeyCode::Char('k') => self.picker_move(true),
            KeyCode::Enter => self.picker_select(),
            _ => {},
        }
    }

    /// Changes the state as a key press in the diff asks for.
    fn handle_browse_key(&mut self, code: KeyCode)
        ensures
            final(self)@ == old(self)@.browse_key(code),
    {
        match code {
            KeyCode::Char('q') => {
                self.should_quit = true;
            },
            KeyCode::Esc => {
                self.screen = self.entry_screen();
            },
            KeyCode::Down | KeyCode::Char('j') => self.move_down(),
            KeyCode::Up | KeyCode::Char('k') => self.move_up(),
            KeyCode::Tab | KeyCode::Char(' ') => self.toggle_current(),
            KeyCode::Char('a') => self.set_filter(Filter::All),
            KeyCode::Char('i') => self.set_filter(Filter::Install),
            KeyCode::Char('u') => self.set_filter(Filter::Upgrade),
            KeyCode::Char('r') => self.set_filter(Filter::Remove),
            KeyCode::Char('R') | KeyCode::F(5) => self.refresh(),
            KeyCode::Enter => {
                if !self.selected.is_empty() {
                    self.mode = Mode::Confirm;
                }
            },
            _ => {},
        }
    }

    /// Changes the state as a key press on the confirm screen asks for.
    fn handle_confirm_key(&mut self, code: KeyCode)
        ensures
            final(self)@ == old(self)@.confirm_key(code),
    {
        match code {
            KeyCode::Char('y') | KeyCode::Enter => {
                self.apply_requested = true;
                self.mode = Mode::Browse;
            },
            KeyCode::Char('n') | KeyCode::Esc => {
                self.mode = Mode::Browse;
            },
            _ => {},
        }
    }

    /// Takes the request to run the commands: true once for each confirmation.
    pub fn take_apply_request(&mut self) -> (r: bool)
        ensures
            r == old(self)@.apply_requested,
            final(self)@ == (AppView { apply_requested: false, ..old(self)@ }),
    {
        let requested = self.apply_requested;
        self.apply_requested = false;
        requested
    }
}

// --- laws --------------------------------------------------------------------
/// A cursor that is on one of `len` rows, or nowhere where there are none.
pub open spec fn is_on_a_row(state: ListState, len: nat) -> bool {
    match state.selected {
        Some(i) => i < len,
        None => len == 0,
    }
}

impl AppView {
    /// Every cursor is on a row of its list, every ticked package is in the
    /// diff, a fetch that is under way or yet to be started is one of the
    /// current source, and so is the diff while it is on the screen.
    pub open spec fn is_valid(self) -> bool {
        &&& is_on_a_row(self.menu_state, self.menu_items.len())
        &&& is_on_a_row(self.picker_state, self.specs.len())
        &&& is_on_a_row(self.list_state, self.visible().len())
        &&& forall|name: Seq<char>| #[trigger]
            self.selected.contains(name) ==> has_entry(self.entries, name)
        &&& self.screen is Loading ==> self.current_spec is Some
        &&& self.screen is Diff ==> self.shown_spec == self.current_spec
        &&& self.pending_fetch is Some ==> self.pending_fetch == self.current_spec
    }
}

/// Without a filter every entry is shown.
proof fn lemma_all_are_visible(m: AppView)
    requires
        m.filter == Filter::All,
    ensures
        m.visible() == m.entries,
{
    lemma_filter_all(m.entries, |e: DiffEntryView| m.filter.shows(e.kind.category()));
}

/// What is shown depends on the entries and the filter alone.
proof fn lemma_visible_depends(a: AppView, b: AppView)
    requires
        a.entries == b.entries,
        a.filter == b.filter,
    ensures
        a.visible() == b.visible(),
{
    assert((|e: DiffEntryView| a.filter.shows(e.kind.category())) =~= (|e: DiffEntryView|
        b.filter.shows(e.kind.category())));
}

/// Every way to start gives a valid state.
pub proof fn law_every_start_is_valid(
    specs: Seq<SourceSpecView>,
    source: SourceSpecView,
    items: Seq<MenuItemView>,
    entries: Seq<DiffEntryView>,
)
    ensures
        AppView::initial(specs).is_valid(),
        AppView::initial(specs).requested(source).is_valid(),
        AppView::initial(specs).showing(entries).is_valid(),
        items.len() > 0 ==> (AppView {
            menu_items: items,
            menu_state: ListState::unselected().at(Some(0)),
            screen: ScreenView::Menu,
            ..AppView::initial(specs)
        }).is_valid(),
{
    let start = AppView::initial(specs);
    lemma_all_are_visible(start);
    lemma_all_are_visible(start.showing(entries));
    lemma_visible_depends(start, start.requested(source));
    let menu = AppView {
        menu_items: items,
        menu_state: ListState::unselected().at(Some(0)),
        screen: ScreenView::Menu,
        ..start
    };
    lemma_visible_depends(start, menu);
}

/// Moving the cursor, ticking and filtering keep the state valid.
pub proof fn law_diff_actions_keep_the_state_valid(m: AppView, filter: Filter)
    requires
        m.is_valid(),
    ensures
        m.moved_down().is_valid(),
        m.moved_up().is_valid(),
        m.toggled().is_valid(),
        m.filtered(filter).is_valid(),
{
    lemma_visible_depends(m, m.moved_down());
    lemma_visible_depends(m, m.moved_up());
    lemma_visible_depends(m, m.toggled());
    lemma_visible_depends(AppView { filter, ..m }, m.filtered(filter));
    if let Some(e) = m.selected_entry() {
        let p = |e: DiffEntryView| m.filter.shows(e.kind.category());
        assert(m.visible().contains(e));
        m.entries.lemma_filter_contains_rev(p, e);
        let k = choose|k: int| 0 <= k < m.entries.len() && m.entries[k] == e;
        assert forall|name: Seq<char>| #[trigger]
            m.toggled().selected.contains(name) implies has_entry(m.toggled().entries, name) by {
            if name == e.name {
                assert(m.entries[k].name == name);
            } else {
                assert(m.selected.contains(name));
            }
        }
    }
}

/// A cursor that wraps is on a row.
proof fn lemma_wrapped_in_range(cursor: Option<usize>, delta: int, len: nat)
    requires
        0 < len <= usize::MAX,
    ensures
        row_wrapped(cursor, delta, len) < len,
{
    let c = match cursor {
        Some(i) => i as int,
        None => 0,
    };
    let n = len as int;
    assert(0 <= (c + delta) % n < n) by (nonlinear_arith)
        requires
            n > 0,
    ;
}

/// No key press makes the state invalid.
pub proof fn law_keys_keep_the_state_valid(m: AppView, code: KeyCode)
    requires
        m.is_valid(),
        m.menu_items.len() <= usize::MAX,
        m.specs.len() <= usize::MAX,
    ensures
        m.key(code).is_valid(),
{
    let n = m.key(code);
    law_diff_actions_keep_the_state_valid(m, Filter::All);
    law_diff_actions_keep_the_state_valid(m, Filter::Install);
    law_diff_actions_keep_the_state_valid(m, Filter::Upgrade);
    law_diff_actions_keep_the_state_valid(m, Filter::Remove);
    if m.menu_items.len() > 0 {
        lemma_wrapped_in_range(m.menu_state.selected, 1, m.menu_items.len());
        lemma_wrapped_in_range(m.menu_state.selected, -1, m.menu_items.len());
    }
    if m.specs.len() > 0 {
        lemma_wrapped_in_range(m.picker_state.selected, 1, m.specs.len());
        lemma_wrapped_in_range(m.picker_state.selected, -1, m.specs.len());
    }
    if n.entries == m.entries && n.filter == m.filter {
        lemma_visible_depends(m, n);
    }
}

/// No fetch result makes the state invalid.
pub proof fn law_results_keep_the_state_valid(
    m: AppView,
    epoch: u64,
    result: Result<Seq<DiffEntryView>, Seq<char>>,
)
    requires
        m.is_valid(),
    ensures
        m.received(epoch, result).is_valid(),
{
    let n = m.received(epoch, result);
    if let Ok(entries) = result {
        lemma_all_are_visible(m.showing(entries));
    }
    if n.entries == m.entries && n.filter == m.filter {
        lemma_visible_depends(m, n);
    }
}

/// The result of a fetch is ignored once a fetch was requested or cancelled
/// after it was started.
pub proof fn law_stale_results_are_ignored(
    m: AppView,
    source: SourceSpecView,
    result: Result<Seq<DiffEntryView>, Seq<char>>,
)
    ensures
        m.cancelled().received(m.fetch_epoch, result) == m.cancelled(),
        m.requested(source).received(m.fetch_epoch, result) == m.requested(source),
        m.current_spec is Some ==> m.refreshed().received(m.fetch_epoch, result) == m.refreshed(),
        m.screen is Loading ==> m.key(KeyCode::Esc).received(m.fetch_epoch, result) == m.key(
            KeyCode::Esc,
        ),
{
}

/// A result counts only where its number is the current one.
pub proof fn law_only_the_current_fetch_counts(
    m: AppView,
    epoch: u64,
    result: Result<Seq<DiffEntryView>, Seq<char>>,
)
    ensures
        epoch != m.fetch_epoch ==> m.received(epoch, result) == m,
        epoch == m.fetch_epoch ==> (m.received(epoch, result).screen == match result {
            Ok(_) => ScreenView::Diff,
            Err(message) => ScreenView::Error(message),
        }),
{
}

/// Commands are asked for on the confirm screen, by `y` or Enter, and nowhere
/// else; that screen opens from the diff, by Enter, exactly where something is
/// ticked.
pub proof fn law_nothing_is_applied_without_confirmation(m: AppView, code: KeyCode)
    ensures
        !m.apply_requested ==> (m.key(code).apply_requested <==> m.screen is Diff && m.mode
            == Mode::Confirm && (code == KeyCode::Char('y') || code == KeyCode::Enter)),
        m.mode == Mode::Browse ==> (m.key(code).mode == Mode::Confirm <==> m.screen is Diff && code
            == KeyCode::Enter && !m.selected.is_empty()),
{
}

/// Filtering changes neither the diff nor the ticks, and so not the plan.
pub proof fn law_selection_survives_filtering(m: AppView, filter: Filter)
    ensures
        m.filtered(filter).selected == m.selected,
        m.filtered(filter).entries == m.entries,
        planned(m.filtered(filter).entries, m.filtered(filter).selected) == planned(
            m.entries,
            m.selected,
        ),
{
}

/// Asking for a source, giving the fetch up and a failed fetch leave the ticks
/// as they are.
pub proof fn law_only_a_new_diff_changes_the_ticks(
    m: AppView,
    source: SourceSpecView,
    epoch: u64,
    message: Seq<char>,
)
    ensures
        m.requested(source).selected == m.selected,
        m.refreshed().selected == m.selected,
        m.cancelled().selected == m.selected,
        m.received(epoch, Err(message)).selected == m.selected,
{
}

/// Where the source of the diff is fetched again, exactly the ticked packages
/// that are still in the diff stay ticked.
pub proof fn law_ticks_survive_a_refetch(
    m: AppView,
    source: SourceSpecView,
    entries: Seq<DiffEntryView>,
    name: Seq<char>,
)
    requires
        m.is_shown(source),
    ensures
        ({
            let asked = m.requested(source);
            let shown = asked.received(asked.fetch_epoch, Ok(entries));
            shown.selected.contains(name) <==> m.selected.contains(name) && has_entry(entries, name)
        }),
{
}

/// Reloading the diff on the screen keeps exactly the ticked packages that are
/// still in it ticked, and so all ticks where the diff is the same.
pub proof fn law_ticks_survive_a_reload(
    m: AppView,
    entries: Seq<DiffEntryView>,
    name: Seq<char>,
)
    requires
        m.is_valid(),
        m.screen is Diff,
        m.current_spec is Some,
    ensures
        ({
            let asked = m.refreshed();
            let shown = asked.received(asked.fetch_epoch, Ok(entries));
            shown.selected.contains(name) <==> m.selected.contains(name) && has_entry(entries, name)
        }),
        ({
            let asked = m.refreshed();
            asked.received(asked.fetch_epoch, Ok(m.entries)).selected == m.selected
        }),
{
    let asked = m.refreshed();
    assert(asked.received(asked.fetch_epoch, Ok(m.entries)).selected =~= m.selected);
}

/// The diff of another source starts without ticks.
pub proof fn law_another_source_starts_without_ticks(
    m: AppView,
    source: SourceSpecView,
    entries: Seq<DiffEntryView>,
)
    requires
        !m.is_shown(source),
    ensures
        ({
            let asked = m.requested(source);
            asked.received(asked.fetch_epoch, Ok(entries)).selected.is_empty()
        }),
{
}

/// What `~/` is expanded to starts with the home directory.
pub proof fn law_tilde_stands_for_the_home_directory(path: Seq<char>, dir: Seq<char>)
    requires
        path.len() >= 2,
        path[0] == '~',
        path[1] == '/',
    ensures
        expanded(path, Some(dir)).len() >= dir.len(),
        expanded(path, Some(dir)).take(dir.len() as int) == dir,
{
    let rest = path.skip(2);
    lemma_without_root(rest);
    assert(expanded(path, Some(dir)).take(dir.len() as int) =~= dir);
}

/// What `without_root` leaves does not start with a separator.
proof fn lemma_without_root(path: Seq<char>)
    ensures
        without_root(path).len() > 0 ==> without_root(path)[0] != '/',
    decreases path.len(),
{
    if path.len() > 0 && path[0] == '/' {
        lemma_without_root(path.drop_first());
    }
}

/// Down and up undo each other.
pub proof fn law_down_and_up_undo_each_other(m: AppView)
    requires
        m.is_valid(),
        m.visible().len() <= usize::MAX,
    ensures
        m.visible().len() > 0 ==> m.moved_down().moved_up() == m,
        m.visible().len() > 0 ==> m.moved_up().moved_down() == m,
{
    lemma_visible_depends(m, m.moved_down());
    lemma_visible_depends(m, m.moved_up());
}

/// Ticking the same package twice changes nothing.
pub proof fn law_ticking_twice_changes_nothing(m: AppView)
    ensures
        m.toggled().toggled() == m,
{
    lemma_visible_depends(m, m.toggled());
    if let Some(e) = m.selected_entry() {
        if m.selected.contains(e.name) {
            assert(m.selected.remove(e.name).insert(e.name) =~= m.selected);
        } else {
            assert(m.selected.insert(e.name).remove(e.name) =~= m.selected);
        }
    }
}

/// Without a filter all entries are shown, and every entry is shown by exactly
/// one of the other filters.
pub proof fn law_filters_divide_the_diff(m: AppView, e: DiffEntryView)
    ensures
        m.filtered(Filter::All).visible() == m.entries,
        m.filtered(Filter::All).visible().len() == m.filtered(Filter::Install).visible().len()
            + m.filtered(Filter::Upgrade).visible().len() + m.filtered(
            Filter::Remove,
        ).visible().len(),
        m.entries.contains(e) ==> {
            &&& m.filtered(Filter::Install).visible().contains(e) <==> e.kind.category()
                == Category::Install
            &&& m.filtered(Filter::Upgrade).visible().contains(e) <==> e.kind.category()
                == Category::Upgrade
            &&& m.filtered(Filter::Remove).visible().contains(e) <==> e.kind.category()
                == Category::Remove
        },
{
    lemma_all_are_visible(m.filtered(Filter::All));
    lemma_filters_count(m.entries);
    lemma_filter_members(m, Filter::Install, e);
    lemma_filter_members(m, Filter::Upgrade, e);
    lemma_filter_members(m, Filter::Remove, e);
}

/// A filter shows the entries of its category.
proof fn lemma_filter_members(m: AppView, filter: Filter, e: DiffEntryView)
    ensures
        m.filtered(filter).visible() == m.entries.filter(
            |e: DiffEntryView| filter.shows(e.kind.category()),
        ),
        m.entries.contains(e) ==> (m.filtered(filter).visible().contains(e) <==> filter.shows(
            e.kind.category(),
        )),
{
    let n = m.filtered(filter);
    let p = |e: DiffEntryView| n.filter.shows(e.kind.category());
    let q = |e: DiffEntryView| filter.shows(e.kind.category());
    assert(p =~= q);
    if m.entries.contains(e) && filter.shows(e.kind.category()) {
        let k = choose|k: int| 0 <= k < m.entries.len() && m.entries[k] == e;
        m.entries.lemma_filter_contains(q, k);
    }
    if m.entries.filter(q).contains(e) {
        let k = choose|k: int| 0 <= k < m.entries.filter(q).len() && m.entries.filter(q)[k] == e;
        m.entries.lemma_filter_pred(q, k);
    }
}

/// The three filters together show as many entries as there are.
proof fn lemma_filters_count(entries: Seq<DiffEntryView>)
    ensures
        entries.len() == entries.filter(
            |e: DiffEntryView| Filter::Install.shows(e.kind.category()),
        ).len() + entries.filter(
            |e: DiffEntryView| Filter::Upgrade.shows(e.kind.category()),
        ).len() + entries.filter(|e: DiffEntryView| Filter::Remove.shows(e.kind.category())).len(),
    decreases entries.len(),
{
    reveal(Seq::filter);
    if entries.len() > 0 {
        lemma_filters_count(entries.drop_last());
    }
}

/// No key press changes the menu rows, the sources of the command line or the
/// diff.
pub proof fn law_keys_keep_the_lists(m: AppView, code: KeyCode)
    ensures
        m.key(code).menu_items == m.menu_items,
        m.key(code).specs == m.specs,
        m.key(code).entries == m.entries,
{
}

/// Only `q` and Escape end the application, and neither does while typing or
/// confirming.
pub proof fn law_only_quit_keys_quit(m: AppView, code: KeyCode)
    ensures
        !m.should_quit && m.key(code).should_quit ==> (code == KeyCode::Char('q') || code
            == KeyCode::Esc) && !(m.screen is Input) && !(m.screen is Diff && m.mode
            == Mode::Confirm),
{
}

/// Backspace takes back the last typed character.
pub proof fn law_backspace_undoes_typing(m: AppView, c: char)
    requires
        m.screen is Input,
    ensures
        m.key(KeyCode::Char(c)).key(KeyCode::Backspace) == m,
{
    assert(m.input.push(c).drop_last() =~= m.input);
}

/// A cursor that wraps comes back when it is moved the other way.
pub proof fn law_wrapping_moves_undo_each_other(cursor: Option<usize>, len: nat)
    requires
        0 < len <= usize::MAX,
        cursor matches Some(i) && i < len,
    ensures
        Some(row_wrapped(Some(row_wrapped(cursor, 1, len)), -1, len)) == cursor,
        Some(row_wrapped(Some(row_wrapped(cursor, -1, len)), 1, len)) == cursor,
{
    let c = cursor->0 as int;
    let n = len as int;
    if c + 1 == n {
        assert(n % n == 0) by (nonlinear_arith)
            requires
                n > 0,
        ;
    } else {
        assert((c + 1) % n == c + 1) by (nonlinear_arith)
            requires
                0 <= c + 1 < n,
        ;
    }
    assert(c % n == c) by (nonlinear_arith)
        requires
            0 <= c < n,
    ;
    assert((-1int) % n == n - 1) by (nonlinear_arith)
        requires
            n > 0,
    ;
    assert(n % n == 0) by (nonlinear_arith)
        requires
            n > 0,
    ;
    if c > 0 {
        assert((c - 1) % n == c - 1) by (nonlinear_arith)
            requires
                0 < c < n,
        ;
    }
}

// --- runs of the application -------------------------------------------------
/// Something that happens to the application while it runs.
pub enum Event {
    /// A key is pressed.
    Key(KeyCode),
    /// The result of a fetch arrives.
    Fetched(u64, Result<Seq<DiffEntryView>, Seq<char>>),
    /// The current source is asked for again.
    Refresh,
    /// The spinner makes a step.
    Tick,
    /// The requested fetch is started.
    FetchTaken,
    /// The requested commands are run.
    ApplyTaken,
}

impl AppView {
    /// The state after an event.
    pub open spec fn step(self, event: Event) -> AppView {
        match event {
            Event::Key(code) => self.key(code),
            Event::Fetched(epoch, result) => self.received(epoch, result),
            Event::Refresh => self.refreshed(),
            Event::Tick => AppView { spinner: self.spinner.wrapping_add(1), ..self },
            Event::FetchTaken => AppView { pending_fetch: None, ..self },
            Event::ApplyTaken => AppView { apply_requested: false, ..self },
        }
    }

    /// The state after a run.
    pub open spec fn after(self, events: Seq<Event>) -> AppView
        decreases events.len(),
    {
        if events.len() == 0 {
            self
        } else {
            self.after(events.drop_last()).step(events.last())
        }
    }

    /// How many fetches were requested or cancelled in a run.
    pub open spec fn renewals(self, events: Seq<Event>) -> nat
        decreases events.len(),
    {
        if events.len() == 0 {
            0
        } else {
            let before = self.after(events.drop_last());
            self.renewals(events.drop_last()) + if before.step(events.last()).fetch_epoch
                == before.fetch_epoch {
                0nat
            } else {
                1nat
            }
        }
    }

    /// The last two rows of the menu are the prompts for a new source.
    pub open spec fn offers_new_sources(self) -> bool {
        let len = self.menu_items.len();
        len >= 2 && self.menu_items[len - 2] == MenuItemView::NewSsh && self.menu_items[len - 1]
            == MenuItemView::NewFile
    }
}

/// A state that was valid stays so in every run, and the lists of sources stay
/// the same.
pub proof fn law_every_run_keeps_the_state_valid(m: AppView, events: Seq<Event>)
    requires
        m.is_valid(),
        m.menu_items.len() <= usize::MAX,
        m.specs.len() <= usize::MAX,
    ensures
        m.after(events).is_valid(),
        m.after(events).menu_items == m.menu_items,
        m.after(events).specs == m.specs,
    decreases events.len(),
{
    if events.len() > 0 {
        law_every_run_keeps_the_state_valid(m, events.drop_last());
        let before = m.after(events.drop_last());
        let now = before.step(events.last());
        match events.last() {
            Event::Key(code) => {
                law_keys_keep_the_state_valid(before, code);
                law_keys_keep_the_lists(before, code);
            },
            Event::Fetched(epoch, result) => {
                law_results_keep_the_state_valid(before, epoch, result);
            },
            _ => {
                lemma_visible_depends(before, now);
            },
        }
    }
}

/// A menu that ends with the two prompts does so in every run.
pub proof fn law_the_menu_always_offers_new_sources(m: AppView, events: Seq<Event>)
    requires
        m.offers_new_sources(),
    ensures
        m.after(events).offers_new_sources(),
    decreases events.len(),
{
    if events.len() > 0 {
        law_the_menu_always_offers_new_sources(m, events.drop_last());
        if let Event::Key(code) = events.last() {
            law_keys_keep_the_lists(m.after(events.drop_last()), code);
        }
    }
}

/// Where nobody presses Enter or `y`, no command is ever asked for.
pub proof fn law_nothing_is_ever_applied_without_enter_or_y(m: AppView, events: Seq<Event>)
    requires
        !m.apply_requested,
        !events.contains(Event::Key(KeyCode::Enter)),
        !events.contains(Event::Key(KeyCode::Char('y'))),
    ensures
        !m.after(events).apply_requested,
    decreases events.len(),
{
    if events.len() > 0 {
        let earlier = events.drop_last();
        assert(events.contains(events.last())) by {
            assert(events[events.len() - 1] == events.last());
        }
        assert forall|e: Event| #[trigger] earlier.contains(e) implies events.contains(e) by {
            let i = choose|i: int| 0 <= i < earlier.len() && earlier[i] == e;
            assert(events[i] == e);
        }
        law_nothing_is_ever_applied_without_enter_or_y(m, earlier);
        if let Event::Key(code) = events.last() {
            law_nothing_is_applied_without_confirmation(m.after(earlier), code);
        }
    }
}

/// The number of the current fetch counts the requested and cancelled fetches.
proof fn lemma_epoch_counts_renewals(m: AppView, events: Seq<Event>)
    ensures
        m.after(events).fetch_epoch == (m.fetch_epoch + m.renewals(events))
            % 0x1_0000_0000_0000_0000,
    decreases events.len(),
{
    if events.len() > 0 {
        lemma_epoch_counts_renewals(m, events.drop_last());
        let before = m.after(events.drop_last());
        let now = before.step(events.last());
        assert(now.fetch_epoch == before.fetch_epoch || now.fetch_epoch
            == before.fetch_epoch.wrapping_add(1));
    }
}

/// The result of a fetch that was started before the run never counts after
/// it, where a fetch was requested or cancelled in the run. (The number of the
/// fetches starts over after 2^64 of them.)
pub proof fn law_results_of_old_fetches_never_count(
    m: AppView,
    events: Seq<Event>,
    result: Result<Seq<DiffEntryView>, Seq<char>>,
)
    requires
        0 < m.renewals(events) < 0x1_0000_0000_0000_0000,
    ensures
        m.after(events).received(m.fetch_epoch, result) == m.after(events),
{
    lemma_epoch_counts_renewals(m, events);
}

// --- what each operation does ------------------------------------------------
/// The views of menu rows, screens and fetch results show what they hold.
pub proof fn law_state_views(
    item: MenuItem,
    screen: Screen,
    result: Result<Vec<DiffEntry>, String>,
)
    ensures
        item matches MenuItem::Source(source) ==> item@ == MenuItemView::Source(source@),
        item is NewSsh ==> item@ is NewSsh,
        item is NewFile ==> item@ is NewFile,
        screen is Menu ==> screen@ is Menu,
        screen is Input ==> screen@ is Input,
        screen is Picker ==> screen@ is Picker,
        screen is Loading ==> screen@ is Loading,
        screen is Diff ==> screen@ is Diff,
        screen matches Screen::Error(message) ==> screen@ == ScreenView::Error(message@),
        result matches Ok(entries) ==> result_view(result) == Ok::<Seq<DiffEntryView>, Seq<char>>(
            views(entries@),
        ),
        result matches Err(message) ==> result_view(result) == Err::<
            Seq<DiffEntryView>,
            Seq<char>,
        >(message@),
{
}

/// The application starts at the picker, with its cursor on the first source, and
/// with everything else empty: nothing typed, fetched, shown or ticked, and
/// nothing asked for.
pub proof fn law_how_the_application_starts(specs: Seq<SourceSpecView>)
    ensures
        ({
            let m = AppView::initial(specs);
            &&& m.specs == specs
            &&& m.screen is Picker
            &&& m.picker_state.offset == 0
            &&& m.picker_state.selected == if specs.len() > 0 {
                Some(0usize)
            } else {
                None
            }
            &&& m.menu_items.len() == 0
            &&& m.menu_state.offset == 0 && m.menu_state.selected is None
            &&& m.input.len() == 0
            &&& m.input_kind == InputKind::Ssh
            &&& m.home is None
            &&& m.entries.len() == 0
            &&& m.filter == Filter::All
            &&& m.selected.is_empty()
            &&& m.list_state.offset == 0 && m.list_state.selected is None
            &&& m.mode == Mode::Browse
            &&& !m.should_quit
            &&& m.current_spec is None
            &&& m.shown_spec is None
            &&& m.spinner == 0
            &&& !m.apply_requested
            &&& m.pending_fetch is None
            &&& m.fetch_epoch == 0
        }),
{
}

/// The spinner has ten frames.
pub proof fn law_spinner_frames()
    ensures
        spinner_frames() == seq!['⠋', '⠙', '⠹', '⠸', '⠼', '⠴', '⠦', '⠧', '⠇', '⠏'],
{
}

/// A request makes the source the current one, is to be started, shows that it is
/// under way, and makes the number of the fetch one higher; nothing else changes.
pub proof fn law_what_a_request_does(m: AppView, source: SourceSpecView)
    ensures
        m.requested(source) == (AppView {
            current_spec: Some(source),
            pending_fetch: Some(source),
            screen: ScreenView::Loading,
            spinner: 0,
            fetch_epoch: m.requested(source).fetch_epoch,
            ..m
        }),
        m.requested(source).fetch_epoch == if m.fetch_epoch == u64::MAX {
            0
        } else {
            m.fetch_epoch + 1
        },
        m.current_spec is None ==> m.refreshed() == m,
        m.current_spec is Some ==> m.refreshed() == m.requested(m.current_spec->0),
{
}

/// Back leads to the menu, or to the picker where the command line named sources;
/// giving a fetch up leads back too and makes the number of the fetch one higher.
pub proof fn law_where_back_leads(m: AppView)
    ensures
        m.back() == (AppView {
            screen: if m.specs.len() == 0 {
                ScreenView::Menu
            } else {
                ScreenView::Picker
            },
            ..m
        }),
        m.entry_screen() == m.back().screen,
        m.cancelled() == (AppView { fetch_epoch: m.cancelled().fetch_epoch, ..m.back() }),
        m.cancelled().fetch_epoch == if m.fetch_epoch == u64::MAX {
            0
        } else {
            m.fetch_epoch + 1
        },
{
}

/// A result whose number is not the current one changes nothing. Otherwise a
/// failure is shown with its message, and entries are shown as the new diff: all
/// of them, from the top, to browse.
pub proof fn law_what_a_result_does(
    m: AppView,
    epoch: u64,
    entries: Seq<DiffEntryView>,
    message: Seq<char>,
)
    ensures
        epoch != m.fetch_epoch ==> m.received(epoch, Ok(entries)) == m && m.received(
            epoch,
            Err(message),
        ) == m,
        epoch == m.fetch_epoch ==> m.received(epoch, Err(message)) == (AppView {
            screen: ScreenView::Error(message),
            ..m
        }),
        epoch == m.fetch_epoch ==> m.received(epoch, Ok(entries)) == m.showing(entries),
        m.showing(entries) == (AppView {
            entries,
            filter: Filter::All,
            mode: Mode::Browse,
            screen: ScreenView::Diff,
            shown_spec: m.current_spec,
            list_state: ListState {
                offset: 0,
                selected: if entries.len() > 0 {
                    Some(0)
                } else {
                    None
                },
            },
            selected: m.showing(entries).selected,
            ..m
        }),
{
}

/// A new diff keeps a tick exactly where the diff before was from the same source
/// and an entry of the new one has that name.
pub proof fn law_which_ticks_a_new_diff_keeps(
    m: AppView,
    entries: Seq<DiffEntryView>,
    name: Seq<char>,
)
    ensures
        m.showing(entries).selected.contains(name) <==> {
            &&& m.selected.contains(name)
            &&& m.shown_spec is Some && m.current_spec is Some
            &&& same_source(m.shown_spec->0, m.current_spec->0)
            &&& exists|i: int| 0 <= i < entries.len() && (#[trigger] entries[i]).name == name
        },
{
}

/// The entries that are shown are, in their order, all of them, the missing, the
/// extra or those of another version, as the filter says.
pub proof fn law_what_is_shown(m: AppView)
    ensures
        m.filter == Filter::All ==> m.visible() == m.entries,
        m.filter == Filter::Install ==> m.visible() == m.entries.filter(
            |e: DiffEntryView| e.kind is Missing,
        ),
        m.filter == Filter::Upgrade ==> m.visible() == m.entries.filter(
            |e: DiffEntryView| e.kind is VersionSkew,
        ),
        m.filter == Filter::Remove ==> m.visible() == m.entries.filter(
            |e: DiffEntryView| e.kind is Extra,
        ),
        forall|cat: Category| #[trigger] Filter::All.shows(cat),
        forall|cat: Category| #[trigger] Filter::Install.shows(cat) <==> cat == Category::Install,
        forall|cat: Category| #[trigger] Filter::Upgrade.shows(cat) <==> cat == Category::Upgrade,
        forall|cat: Category| #[trigger] Filter::Remove.shows(cat) <==> cat == Category::Remove,
{
    let p = |e: DiffEntryView| m.filter.shows(e.kind.category());
    match m.filter {
        Filter::All => {
            lemma_all_are_visible(m);
        },
        Filter::Install => {
            assert(p =~= (|e: DiffEntryView| e.kind is Missing));
        },
        Filter::Upgrade => {
            assert(p =~= (|e: DiffEntryView| e.kind is VersionSkew));
        },
        Filter::Remove => {
            assert(p =~= (|e: DiffEntryView| e.kind is Extra));
        },
    }
}

/// The entry under the cursor is the one that is shown in its row, and none where
/// there is no such row.
pub proof fn law_the_entry_under_the_cursor(m: AppView)
    ensures
        m.list_state.selected is None ==> m.selected_entry() is None,
        m.list_state.selected matches Some(i) ==> i >= m.visible().len() ==> m.selected_entry()
            is None,
        m.list_state.selected matches Some(i) ==> i < m.visible().len() ==> m.selected_entry()
            == Some(m.visible()[i as int]),
{
}

/// Ticking changes the tick of the package in the row of the cursor, among those
/// that are shown, and of no other; without such a row it changes nothing. Tab
/// and Space do this in the diff.
pub proof fn law_ticking_acts_on_the_row_of_the_cursor(m: AppView, name: Seq<char>)
    ensures
        m.list_state.selected matches Some(i) ==> i < m.visible().len() ==> (
        m.toggled().selected.contains(name) <==> (m.selected.contains(name) != (name
            == m.visible()[i as int].name))),
        m.list_state.selected matches Some(i) ==> i >= m.visible().len() ==> m.toggled() == m,
        m.list_state.selected is None ==> m.toggled() == m,
        m.toggled() == (AppView { selected: m.toggled().selected, ..m }),
        m.screen is Diff && m.mode == Mode::Browse ==> m.key(KeyCode::Tab) == m.toggled() && m.key(
            KeyCode::Char(' '),
        ) == m.toggled(),
{
}

/// Down and up move the cursor of the diff by one row, from the last row to the
/// first and back; without a cursor down goes to the first row and up to the
/// last. Nothing else changes. Without rows there is no cursor.
pub proof fn law_where_the_diff_cursor_goes(m: AppView)
    requires
        m.visible().len() <= usize::MAX,
    ensures
        ({
            let len = m.visible().len() as int;
            let down = m.moved_down();
            let up = m.moved_up();
            &&& down == (AppView { list_state: down.list_state, ..m })
            &&& up == (AppView { list_state: up.list_state, ..m })
            &&& len == 0 ==> down.list_state == up.list_state && down.list_state.selected is None
                && down.list_state.offset == 0
            &&& len > 0 ==> {
                &&& down.list_state.offset == m.list_state.offset
                &&& up.list_state.offset == m.list_state.offset
                &&& down.list_state.selected is Some && up.list_state.selected is Some
                &&& m.list_state.selected is None ==> down.list_state.selected->0 == 0
                    && up.list_state.selected->0 == len - 1
                &&& m.list_state.selected matches Some(i) ==> {
                    &&& i + 1 < len ==> down.list_state.selected->0 == i + 1
                    &&& i + 1 >= len ==> down.list_state.selected->0 == 0
                    &&& i > 0 ==> up.list_state.selected->0 == i - 1
                    &&& i == 0 ==> up.list_state.selected->0 == len - 1
                }
            }
        }),
{
}

/// A filter is set as asked for, and the cursor stays in its row, or goes to the
/// last row that there is; without a cursor it goes to the first row. Nothing
/// else changes. Without rows there is no cursor.
pub proof fn law_what_setting_a_filter_does(m: AppView, filter: Filter)
    requires
        m.entries.len() <= usize::MAX,
    ensures
        ({
            let n = m.filtered(filter);
            let len = n.visible().len();
            &&& n == (AppView { filter, list_state: n.list_state, ..m })
            &&& len == 0 ==> n.list_state.selected is None && n.list_state.offset == 0
            &&& len > 0 ==> {
                &&& n.list_state.offset == m.list_state.offset
                &&& n.list_state.selected is Some
                &&& m.list_state.selected is None ==> n.list_state.selected->0 == 0
                &&& m.list_state.selected matches Some(i) ==> {
                    &&& i < len ==> n.list_state.selected->0 == i
                    &&& i >= len ==> n.list_state.selected->0 == len - 1
                }
            }
        }),
{
    let n = m.filtered(filter);
    lemma_visible_depends(AppView { filter, ..m }, n);
    let p = |e: DiffEntryView| n.filter.shows(e.kind.category());
    m.entries.lemma_filter_len(p);
}

/// The cursors of the picker and of the menu move by as many rows as asked for
/// and start over at the ends; without a cursor they count from the first row.
/// Nothing else changes, and nothing at all without rows.
pub proof fn law_where_the_other_cursors_go(m: AppView, delta: int)
    requires
        m.specs.len() <= usize::MAX,
        m.menu_items.len() <= usize::MAX,
    ensures
        m.specs.len() == 0 ==> m.picker_moved(delta) == m,
        m.menu_items.len() == 0 ==> m.menu_moved(delta) == m,
        m.specs.len() > 0 ==> {
            let n = m.picker_moved(delta);
            let from = match m.picker_state.selected {
                Some(i) => i as int,
                None => 0,
            };
            &&& n == (AppView { picker_state: n.picker_state, ..m })
            &&& n.picker_state.offset == m.picker_state.offset
            &&& n.picker_state.selected matches Some(row) && row == (from + delta)
                % (m.specs.len() as int) && row < m.specs.len()
        },
        m.menu_items.len() > 0 ==> {
            let n = m.menu_moved(delta);
            let from = match m.menu_state.selected {
                Some(i) => i as int,
                None => 0,
            };
            &&& n == (AppView { menu_state: n.menu_state, ..m })
            &&& n.menu_state.offset == m.menu_state.offset
            &&& n.menu_state.selected matches Some(row) && row == (from + delta)
                % (m.menu_items.len() as int) && row < m.menu_items.len()
        },
{
    if m.specs.len() > 0 {
        lemma_wrapped_row(m.picker_state.selected, delta, m.specs.len());
    }
    if m.menu_items.len() > 0 {
        lemma_wrapped_row(m.menu_state.selected, delta, m.menu_items.len());
    }
}

/// A wrapped row is the remainder itself.
proof fn lemma_wrapped_row(cursor: Option<usize>, delta: int, len: nat)
    requires
        0 < len <= usize::MAX,
    ensures
        row_wrapped(cursor, delta, len) as int == (match cursor {
            Some(i) => i as int,
            None => 0,
        } + delta) % (len as int),
        row_wrapped(cursor, delta, len) < len,
{
    lemma_wrapped_in_range(cursor, delta, len);
    let c = match cursor {
        Some(i) => i as int,
        None => 0,
    };
    let n = len as int;
    assert(0 <= (c + delta) % n < n) by (nonlinear_arith)
        requires
            n > 0,
    ;
}

/// Choosing in the picker asks for the source in the row of the cursor, and does
/// nothing without such a row.
pub proof fn law_what_the_picker_chooses(m: AppView)
    ensures
        m.picker_state.selected is None ==> m.picked() == m,
        m.picker_state.selected matches Some(i) ==> i >= m.specs.len() ==> m.picked() == m,
        m.picker_state.selected matches Some(i) ==> i < m.specs.len() ==> m.picked() == m.requested(
            m.specs[i as int],
        ),
{
}

/// Choosing in the menu acts on the row of the cursor, or on the first row
/// without a cursor: a source is asked for, and a prompt opens an empty field for
/// what it prompts for. Without such a row nothing happens.
pub proof fn law_what_the_menu_chooses(m: AppView, row: int)
    requires
        row == match m.menu_state.selected {
            Some(i) => i as int,
            None => 0,
        },
    ensures
        row >= m.menu_items.len() ==> m.menu_chosen() == m,
        row < m.menu_items.len() ==> {
            &&& m.menu_items[row] matches MenuItemView::Source(source) ==> m.menu_chosen()
                == m.requested(source)
            &&& m.menu_items[row] is NewSsh ==> m.menu_chosen() == (AppView {
                screen: ScreenView::Input,
                input: Seq::empty(),
                input_kind: InputKind::Ssh,
                ..m
            })
            &&& m.menu_items[row] is NewFile ==> m.menu_chosen() == (AppView {
                screen: ScreenView::Input,
                input: Seq::empty(),
                input_kind: InputKind::File,
                ..m
            })
        },
{
}

/// Submitting asks for the host of the typed name, or the file at the typed path
/// with its `~/` expanded, in either case without white space around it; a blank
/// text changes nothing.
pub proof fn law_what_submitting_does(m: AppView)
    ensures
        trimmed(m.input).len() == 0 ==> m.submitted() == m,
        trimmed(m.input).len() > 0 && m.input_kind == InputKind::Ssh ==> m.submitted()
            == m.requested(SourceSpecView::Ssh(trimmed(m.input))),
        trimmed(m.input).len() > 0 && m.input_kind == InputKind::File ==> m.submitted()
            == m.requested(SourceSpecView::File(expanded(trimmed(m.input), m.home))),
{
}

/// A path that begins with `~/` goes on below the home directory, however many
/// separators follow; any other path stays as it is, and so does every path where
/// there is no home directory.
pub proof fn law_what_a_tilde_means(path: Seq<char>, slashes: nat, rest: Seq<char>, dir: Seq<char>)
    requires
        rest.len() == 0 || rest[0] != '/',
    ensures
        expanded(path, None) == path,
        path.len() < 2 || path[0] != '~' || path[1] != '/' ==> expanded(path, Some(dir)) == path,
        expanded(seq!['~', '/'] + Seq::new(slashes, |i: int| '/') + rest, Some(dir)) == if dir.len()
            == 0 || dir.last() == '/' {
            dir + rest
        } else {
            dir + seq!['/'] + rest
        },
{
    let more = Seq::new(slashes, |i: int| '/');
    let typed = seq!['~', '/'] + more + rest;
    assert(typed.skip(2) =~= more + rest);
    lemma_without_slashes(slashes, rest);
}

/// Separators in front of a path do not count for `without_root`.
proof fn lemma_without_slashes(slashes: nat, rest: Seq<char>)
    requires
        rest.len() == 0 || rest[0] != '/',
    ensures
        without_root(Seq::new(slashes, |i: int| '/') + rest) == rest,
    decreases slashes,
{
    let s = Seq::new(slashes, |i: int| '/') + rest;
    if slashes > 0 {
        let fewer = (slashes - 1) as nat;
        lemma_without_slashes(fewer, rest);
        assert(s[0] == '/');
        assert(s.drop_first() =~= Seq::new(fewer, |i: int| '/') + rest);
    } else {
        assert(s =~= rest);
    }
}

/// The keys of the entry menu; all others do nothing.
pub proof fn law_keys_of_the_menu(m: AppView, code: KeyCode)
    requires
        m.screen is Menu,
    ensures
        m.key(KeyCode::Char('q')) == (AppView { should_quit: true, ..m }),
        m.key(KeyCode::Esc) == (AppView { should_quit: true, ..m }),
        m.key(KeyCode::Down) == m.menu_moved(1),
        m.key(KeyCode::Char('j')) == m.menu_moved(1),
        m.key(KeyCode::Up) == m.menu_moved(-1),
        m.key(KeyCode::Char('k')) == m.menu_moved(-1),
        m.key(KeyCode::Enter) == m.menu_chosen(),
        code != KeyCode::Char('q') && code != KeyCode::Esc && code != KeyCode::Down && code
            != KeyCode::Char('j') && code != KeyCode::Up && code != KeyCode::Char('k') && code
            != KeyCode::Enter ==> m.key(code) == m,
{
}

/// The keys of the picker; all others do nothing.
pub proof fn law_keys_of_the_picker(m: AppView, code: KeyCode)
    requires
        m.screen is Picker,
    ensures
        m.key(KeyCode::Char('q')) == (AppView { should_quit: true, ..m }),
        m.key(KeyCode::Esc) == (AppView { should_quit: true, ..m }),
        m.key(KeyCode::Down) == m.picker_moved(1),
        m.key(KeyCode::Char('j')) == m.picker_moved(1),
        m.key(KeyCode::Up) == m.picker_moved(-1),
        m.key(KeyCode::Char('k')) == m.picker_moved(-1),
        m.key(KeyCode::Enter) == m.picked(),
        code != KeyCode::Char('q') && code != KeyCode::Esc && code != KeyCode::Down && code
            != KeyCode::Char('j') && code != KeyCode::Up && code != KeyCode::Char('k') && code
            != KeyCode::Enter ==> m.key(code) == m,
{
}

/// The keys while typing: every character is appended, Backspace takes the last
/// one away, Enter submits, Escape leads to the menu; all others do nothing.
pub proof fn law_keys_while_typing(m: AppView, code: KeyCode, c: char)
    requires
        m.screen is Input,
    ensures
        m.key(KeyCode::Char(c)) == (AppView { input: m.input.push(c), ..m }),
        m.input.len() == 0 ==> m.key(KeyCode::Backspace) == m,
        m.input.len() > 0 ==> m.key(KeyCode::Backspace) == (AppView {
            input: m.input.take(m.input.len() - 1),
            ..m
        }),
        m.key(KeyCode::Enter) == m.submitted(),
        m.key(KeyCode::Esc) == (AppView { screen: ScreenView::Menu, ..m }),
        !(code is Char) && code != KeyCode::Backspace && code != KeyCode::Enter && code
            != KeyCode::Esc ==> m.key(code) == m,
{
    if m.input.len() > 0 {
        assert(m.input.drop_last() =~= m.input.take(m.input.len() - 1));
    }
}

/// The keys during a fetch and after a failed one: `q` quits; Escape gives the
/// fetch up and other keys do nothing; after a failure every other key leads
/// back.
pub proof fn law_keys_during_and_after_a_fetch(m: AppView, code: KeyCode)
    ensures
        m.screen is Loading || m.screen is Error ==> m.key(KeyCode::Char('q')) == (AppView {
            should_quit: true,
            ..m
        }),
        m.screen is Loading ==> m.key(KeyCode::Esc) == m.cancelled(),
        m.screen is Loading && code != KeyCode::Char('q') && code != KeyCode::Esc ==> m.key(code)
            == m,
        m.screen is Error && code != KeyCode::Char('q') ==> m.key(code) == m.back(),
{
}

/// The keys of the diff; all others do nothing.
pub proof fn law_keys_of_the_diff(m: AppView, code: KeyCode)
    requires
        m.screen is Diff,
        m.mode == Mode::Browse,
    ensures
        m.key(KeyCode::Char('q')) == (AppView { should_quit: true, ..m }),
        m.key(KeyCode::Esc) == m.back(),
        m.key(KeyCode::Down) == m.moved_down(),
        m.key(KeyCode::Char('j')) == m.moved_down(),
        m.key(KeyCode::Up) == m.moved_up(),
        m.key(KeyCode::Char('k')) == m.moved_up(),
        m.key(KeyCode::Tab) == m.toggled(),
        m.key(KeyCode::Char(' ')) == m.toggled(),
        m.key(KeyCode::Char('a')) == m.filtered(Filter::All),
        m.key(KeyCode::Char('i')) == m.filtered(Filter::Install),
        m.key(KeyCode::Char('u')) == m.filtered(Filter::Upgrade),
        m.key(KeyCode::Char('r')) == m.filtered(Filter::Remove),
        m.key(KeyCode::Char('R')) == m.refreshed(),
        m.key(KeyCode::F(5)) == m.refreshed(),
        m.selected.is_empty() ==> m.key(KeyCode::Enter) == m,
        !m.selected.is_empty() ==> m.key(KeyCode::Enter) == (AppView { mode: Mode::Confirm, ..m }),
        code != KeyCode::Char('q') && code != KeyCode::Esc && code != KeyCode::Down && code
            != KeyCode::Char('j') && code != KeyCode::Up && code != KeyCode::Char('k') && code
            != KeyCode::Tab && code != KeyCode::Char(' ') && code != KeyCode::Char('a') && code
            != KeyCode::Char('i') && code != KeyCode::Char('u') && code != KeyCode::Char('r') && code
            != KeyCode::Char('R') && code != KeyCode::F(5) && code != KeyCode::Enter ==> m.key(code)
            == m,
{
}

/// The keys of the confirm screen: `y` and Enter ask for the commands and close
/// it, `n` and Escape only close it; all others do nothing.
pub proof fn law_keys_of_the_confirm_screen(m: AppView, code: KeyCode)
    requires
        m.screen is Diff,
        m.mode == Mode::Confirm,
    ensures
        m.key(KeyCode::Char('y')) == (AppView {
            apply_requested: true,
            mode: Mode::Browse,
            ..m
        }),
        m.key(KeyCode::Enter) == (AppView { apply_requested: true, mode: Mode::Browse, ..m }),
        m.key(KeyCode::Char('n')) == (AppView { mode: Mode::Browse, ..m }),
        m.key(KeyCode::Esc) == (AppView { mode: Mode::Browse, ..m }),
        code != KeyCode::Char('y') && code != KeyCode::Enter && code != KeyCode::Char('n') && code
            != KeyCode::Esc ==> m.key(code) == m,
{
}

/// Quitting is noted and changes nothing else.
pub proof fn law_what_quitting_does(m: AppView)
    ensures
        m.quitting() == (AppView { should_quit: true, ..m }),
{
}

/// The view of the state shows all its fields.
proof fn law_view_shows_all_fields(app: App)
    ensures
        app@.menu_items == views(app.menu_items@),
        app@.menu_state == app.menu_state,
        app@.input == app.input@,
        app@.input_kind == app.input_kind,
        app@.home == opt_view(app.home),
        app@.specs == views(app.specs@),
        app@.picker_state == app.picker_state,
        app@.entries == views(app.entries@),
        app@.filter == app.filter,
        app@.selected == app.selected@,
        app@.list_state == app.list_state,
        app@.mode == app.mode,
        app@.screen == app.screen@,
        app@.should_quit == app.should_quit,
        app@.current_spec == opt_view(app.current_spec),
        app@.shown_spec == opt_view(app.shown_spec),
        app@.spinner == app.spinner,
        app@.apply_requested == app.apply_requested,
        app@.pending_fetch == opt_view(app.pending_fetch),
        app@.fetch_epoch == app.fetch_epoch,
{
}

} // verus!
