//! The menu bar and the floating panel.
//!
//! The application hands events in and performs the actions that come back.

use vstd::prelude::*;
use crate::focus::FocusDetection;
use crate::settings::Settings;
use crate::text::same_text;
use crate::text::texts;

verus! {

/// The panel stays for so long after the last text of a session, in milliseconds.
pub const OVERLAY_HIDE_DELAY_MS: u64 = 3_000;

/// Final phrases are looked for so often while recording, in milliseconds.
pub const ROLLING_TICK_INTERVAL_MS: u64 = 1_000;

/// The locale where none is chosen, and the one to fall back to.
pub const LOCALE: &'static str = "zh-TW";

/// The language that the transcriber is told.
pub const WHISPER_LANGUAGE: &'static str = "zh";

// ---------------------------------------------------------------------------
// The menu
// ---------------------------------------------------------------------------

/// Something that the user can choose from the menu.
#[derive(Debug, Clone, Copy, PartialEq, Eq)]
pub enum MenuCommand {
    Quit,
    /// One of the two check marks was changed.
    UpdateSettings,
    EditTerms,
    EditReplacements,
    TeachCorrection,
    Diagnose,
    Restart,
    /// No entry of the menu.
    Unknown,
}

/// What the entry with an id stands for.
pub open spec fn command_of(id: Seq<char>) -> MenuCommand {
    if id == "quit"@ {
        MenuCommand::Quit
    } else if id == "settings.auto_locale"@ || id == "settings.whisper_correction"@ {
        MenuCommand::UpdateSettings
    } else if id == "edit.terms"@ {
        MenuCommand::EditTerms
    } else if id == "edit.replacements"@ {
        MenuCommand::EditReplacements
    } else if id == "edit.teach_correction"@ {
        MenuCommand::TeachCorrection
    } else if id == "diagnostics"@ {
        MenuCommand::Diagnose
    } else if id == "restart"@ {
        MenuCommand::Restart
    } else {
        MenuCommand::Unknown
    }
}

/// What the entry with an id stands for.
pub fn menu_command(id: &str) -> (command: MenuCommand)
    ensures
        command == command_of(id@),
{
    if same_text(id, "quit") {
        MenuCommand::Quit
    } else if same_text(id, "settings.auto_locale") || same_text(id, "settings.whisper_correction") {
        MenuCommand::UpdateSettings
    } else if same_text(id, "edit.terms") {
        MenuCommand::EditTerms
    } else if same_text(id, "edit.replacements") {
        MenuCommand::EditReplacements
    } else if same_text(id, "edit.teach_correction") {
        MenuCommand::TeachCorrection
    } else if same_text(id, "diagnostics") {
        MenuCommand::Diagnose
    } else if same_text(id, "restart") {
        MenuCommand::Restart
    } else {
        MenuCommand::Unknown
    }
}

/// An entry of the menu.
#[derive(Debug, PartialEq, Eq)]
pub enum MenuEntry {
    /// A text that cannot be chosen.
    Label(String),
    Separator,
    /// An entry with a check mark.
    Check { id: &'static str, title: &'static str, checked: bool },
    Item { id: &'static str, title: &'static str },
}

/// An entry as text.
pub enum EntryText {
    Label(Seq<char>),
    Separator,
    Check(Seq<char>, Seq<char>, bool),
    Item(Seq<char>, Seq<char>),
}

impl View for MenuEntry {
    type V = EntryText;

    open spec fn view(&self) -> EntryText {
        match self {
            MenuEntry::Label(s) => EntryText::Label(s@),
            MenuEntry::Separator => EntryText::Separator,
            MenuEntry::Check { id, title, checked } => EntryText::Check(id@, title@, *checked),
            MenuEntry::Item { id, title } => EntryText::Item(id@, title@),
        }
    }
}

/// Entries as text.
pub open spec fn entry_texts(entries: Seq<MenuEntry>) -> Seq<EntryText> {
    entries.map_values(|e: MenuEntry| e@)
}

/// The menu, from top to bottom.
pub open spec fn menu_for(version: Seq<char>, settings: Settings) -> Seq<EntryText> {
    seq![
        EntryText::Label("raflow v"@ + version),
        EntryText::Separator,
        EntryText::Check(
            "settings.auto_locale"@,
            "依輸入法自動切換語言"@,
            settings.auto_locale,
        ),
        EntryText::Check(
            "settings.whisper_correction"@,
            "Whisper 智慧校正（中文/中英混講）"@,
            settings.whisper_correction,
        ),
        EntryText::Separator,
        EntryText::Item("edit.teach_correction"@, "教 raflow 一個更正…"@),
        EntryText::Item("edit.terms"@, "編輯自訂詞彙…"@),
        EntryText::Item("edit.replacements"@, "編輯取代規則…"@),
        EntryText::Separator,
        EntryText::Item("diagnostics"@, "診斷…"@),
        EntryText::Item("restart"@, "重新啟動 raflow"@),
        EntryText::Item("quit"@, "結束 raflow"@),
    ]
}

/// The menu, from top to bottom, for this version of the tool and these settings.
pub fn build_menu(version: &str, settings: Settings) -> (entries: Vec<MenuEntry>)
    ensures
        entry_texts(entries@) == menu_for(version@, settings),
{
    let mut label = "raflow v".to_owned();
    label.append(version);
    let mut entries: Vec<MenuEntry> = Vec::new();
    entries.push(MenuEntry::Label(label));
    entries.push(MenuEntry::Separator);
    entries.push(
        MenuEntry::Check {
            id: "settings.auto_locale",
            title: "依輸入法自動切換語言",
            checked: settings.auto_locale,
        },
    );
    entries.push(
        MenuEntry::Check {
            id: "settings.whisper_correction",
            title: "Whisper 智慧校正（中文/中英混講）",
            checked: settings.whisper_correction,
        },
    );
    entries.push(MenuEntry::Separator);
    entries.push(MenuEntry::Item { id: "edit.teach_correction", title: "教 raflow 一個更正…" });
    entries.push(MenuEntry::Item { id: "edit.terms", title: "編輯自訂詞彙…" });
    entries.push(MenuEntry::Item { id: "edit.replacements", title: "編輯取代規則…" });
    entries.push(MenuEntry::Separator);
    entries.push(MenuEntry::Item { id: "diagnostics", title: "診斷…" });
    entries.push(MenuEntry::Item { id: "restart", title: "重新啟動 raflow" });
    entries.push(MenuEntry::Item { id: "quit", title: "結束 raflow" });
    assert(entry_texts(entries@) =~= menu_for(version@, settings));
    entries
}

/// Every entry of the menu that can be chosen stands for something.
pub proof fn every_entry_does_something(version: Seq<char>, settings: Settings, k: int)
    requires
        0 <= k < menu_for(version, settings).len(),
    ensures
        match menu_for(version, settings)[k] {
            EntryText::Check(id, _, _) => command_of(id) == MenuCommand::UpdateSettings,
            EntryText::Item(id, _) => command_of(id) != MenuCommand::Unknown,
            _ => true,
        },
{
    reveal_strlit("quit");
    reveal_strlit("settings.auto_locale");
    reveal_strlit("settings.whisper_correction");
    assert("quit"@.len() == 4);
    assert("settings.auto_locale"@.len() == 20);
    assert("settings.whisper_correction"@.len() == 27);
}

/// An entry of the menu that can be chosen, with its title.
pub open spec fn is_entry(entry: EntryText, id: Seq<char>, title: Seq<char>) -> bool {
    match entry {
        EntryText::Check(i, t, _) => i == id && t == title,
        EntryText::Item(i, t) => i == id && t == title,
        _ => false,
    }
}

// ---------------------------------------------------------------------------
// The event loop
// ---------------------------------------------------------------------------

/// Something that happened.
#[derive(Debug, PartialEq, Eq)]
pub enum UiEvent {
    /// The loop has started; the panel could be made or could not.
    Started { overlay: bool },
    /// The time that was waited for has come.
    Woken,
    /// A recording has started, with the focus as it was found.
    RecordingStarted(FocusDetection),
    RecordingStopped,
    /// Typing pauses because the user is editing.
    Paused,
    /// Typing goes on.
    Resumed,
    /// A text for the panel; none clears it.
    OverlayText(Option<String>),
    /// The panel is to go away after so many milliseconds.
    OverlayScheduleHide(u64),
    /// The words that a correction can be offered for.
    RecentTokensUpdated(Vec<String>),
    /// An entry of the menu was chosen. `marks` are its check marks, where there is a menu.
    MenuClick { id: String, marks: Option<Settings> },
}

/// Something to do.
#[derive(Debug, PartialEq, Eq)]
pub enum UiAction {
    /// The icon that says that the tool is recording.
    RecordingIcon,
    /// The icon that says that the tool is recording but does not type.
    PausedIcon,
    /// The icon that says that it is not recording.
    IdleIcon,
    /// The panel shows a text.
    ShowText(String),
    HideOverlay,
    /// The text of the panel is taken away.
    ClearOverlay,
    /// The settings are in force from now on, and are saved.
    StoreSettings(Settings),
    EditTerms,
    EditReplacements,
    TeachCorrection,
    Diagnose,
    Restart,
    Quit,
}

/// An event as text.
pub enum EventText {
    Started { overlay: bool },
    Woken,
    RecordingStarted { hides_panel: bool },
    RecordingStopped,
    Paused,
    Resumed,
    OverlayText(Option<Seq<char>>),
    OverlayScheduleHide(int),
    RecentTokensUpdated(Seq<Seq<char>>),
    MenuClick(Seq<char>, Option<Settings>),
}

impl View for UiEvent {
    type V = EventText;

    open spec fn view(&self) -> EventText {
        match self {
            UiEvent::Started { overlay } => EventText::Started { overlay: *overlay },
            UiEvent::Woken => EventText::Woken,
            UiEvent::RecordingStarted(d) => EventText::RecordingStarted {
                hides_panel: d.hides_panel(),
            },
            UiEvent::RecordingStopped => EventText::RecordingStopped,
            UiEvent::Paused => EventText::Paused,
            UiEvent::Resumed => EventText::Resumed,
            UiEvent::OverlayText(t) => EventText::OverlayText(
                match t {
                    Some(s) => Some(s@),
                    None => None,
                },
            ),
            UiEvent::OverlayScheduleHide(d) => EventText::OverlayScheduleHide(*d as int),
            UiEvent::RecentTokensUpdated(v) => EventText::RecentTokensUpdated(texts(v@)),
            UiEvent::MenuClick { id, marks } => EventText::MenuClick(id@, *marks),
        }
    }
}

/// An action as text.
pub enum UiActionText {
    RecordingIcon,
    PausedIcon,
    IdleIcon,
    ShowText(Seq<char>),
    HideOverlay,
    ClearOverlay,
    StoreSettings(Settings),
    EditTerms,
    EditReplacements,
    TeachCorrection,
    Diagnose,
    Restart,
    Quit,
}

impl View for UiAction {
    type V = UiActionText;

    open spec fn view(&self) -> UiActionText {
        match self {
            UiAction::RecordingIcon => UiActionText::RecordingIcon,
            UiAction::PausedIcon => UiActionText::PausedIcon,
            UiAction::IdleIcon => UiActionText::IdleIcon,
            UiAction::ShowText(s) => UiActionText::ShowText(s@),
            UiAction::HideOverlay => UiActionText::HideOverlay,
            UiAction::ClearOverlay => UiActionText::ClearOverlay,
            UiAction::StoreSettings(s) => UiActionText::StoreSettings(*s),
            UiAction::EditTerms => UiActionText::EditTerms,
            UiAction::EditReplacements => UiActionText::EditReplacements,
            UiAction::TeachCorrection => UiActionText::TeachCorrection,
            UiAction::Diagnose => UiActionText::Diagnose,
            UiAction::Restart => UiActionText::Restart,
            UiAction::Quit => UiActionText::Quit,
        }
    }
}

/// Actions as text.
pub open spec fn ui_action_texts(actions: Seq<UiAction>) -> Seq<UiActionText> {
    actions.map_values(|a: UiAction| a@)
}

/// What the loop keeps in mind.
pub struct UiState {
    /// There is a panel.
    pub overlay: bool,
    /// When the panel is to go away, where that is planned.
    pub hide_at: Option<int>,
    /// The tool is recording.
    pub recording: bool,
    /// The panel is not shown in this recording.
    pub suppressed: bool,
    /// The words that a correction can be offered for.
    pub tokens: Seq<Seq<char>>,
}

/// The time has come for the panel to go away.
pub open spec fn hide_is_due(state: UiState, now: int) -> bool {
    state.hide_at is Some && now >= state.hide_at->0
}

/// What the loop keeps in mind after an event at the time `now`.
pub open spec fn ui_after(state: UiState, event: EventText, now: int) -> UiState {
    match event {
        EventText::Started { overlay } => UiState { overlay, ..state },
        EventText::Woken => if hide_is_due(state, now) {
            UiState { hide_at: None, ..state }
        } else {
            state
        },
        EventText::RecordingStarted { hides_panel } => UiState {
            recording: true,
            suppressed: hides_panel,
            ..state
        },
        EventText::RecordingStopped => UiState { recording: false, ..state },
        EventText::Paused => state,
        EventText::Resumed => state,
        EventText::OverlayText(_) => if state.overlay {
            UiState { hide_at: None, ..state }
        } else {
            state
        },
        EventText::OverlayScheduleHide(d) => UiState { hide_at: Some(now + d), ..state },
        EventText::RecentTokensUpdated(tokens) => UiState { tokens, ..state },
        EventText::MenuClick(_, _) => state,
    }
}

/// What an event at the time `now` makes the application do.
pub open spec fn ui_actions(state: UiState, event: EventText, now: int) -> Seq<UiActionText> {
    match event {
        EventText::Started { .. } => Seq::empty(),
        EventText::Woken => if hide_is_due(state, now) && state.overlay {
            seq![UiActionText::HideOverlay]
        } else {
            Seq::empty()
        },
        EventText::RecordingStarted { .. } => seq![UiActionText::RecordingIcon],
        EventText::RecordingStopped => seq![UiActionText::IdleIcon],
        EventText::Paused => if state.recording {
            seq![UiActionText::PausedIcon]
        } else {
            Seq::empty()
        },
        EventText::Resumed => if state.recording {
            seq![UiActionText::RecordingIcon]
        } else {
            Seq::empty()
        },
        EventText::OverlayText(text) => if !state.overlay {
            Seq::empty()
        } else {
            match text {
                Some(t) => if state.suppressed {
                    seq![UiActionText::HideOverlay]
                } else {
                    seq![UiActionText::ShowText(t)]
                },
                None => seq![UiActionText::HideOverlay, UiActionText::ClearOverlay],
            }
        },
        EventText::OverlayScheduleHide(_) => Seq::empty(),
        EventText::RecentTokensUpdated(_) => Seq::empty(),
        EventText::MenuClick(id, marks) => match command_of(id) {
            MenuCommand::Quit => seq![UiActionText::Quit],
            MenuCommand::UpdateSettings => match marks {
                Some(s) => seq![UiActionText::StoreSettings(s)],
                None => Seq::empty(),
            },
            MenuCommand::EditTerms => seq![UiActionText::EditTerms],
            MenuCommand::EditReplacements => seq![UiActionText::EditReplacements],
            MenuCommand::TeachCorrection => seq![UiActionText::TeachCorrection],
            MenuCommand::Diagnose => seq![UiActionText::Diagnose],
            MenuCommand::Restart => seq![UiActionText::Restart],
            MenuCommand::Unknown => Seq::empty(),
        },
    }
}

/// The event loop's state. Times are in milliseconds from any fixed moment.
#[derive(Debug)]
pub struct Ui {
    overlay: bool,
    hide_at: Option<u64>,
    recording: bool,
    suppressed: bool,
    tokens: Vec<String>,
}

impl View for Ui {
    type V = UiState;

    closed spec fn view(&self) -> UiState {
        UiState {
            overlay: self.overlay,
            hide_at: match self.hide_at {
                Some(at) => Some(at as int),
                None => None,
            },
            recording: self.recording,
            suppressed: self.suppressed,
            tokens: texts(self.tokens@),
        }
    }
}

impl Ui {
    /// Nothing has happened yet.
    pub fn new() -> (ui: Self)
        ensures
            ui@ == (UiState {
                overlay: false,
                hide_at: None,
                recording: false,
                suppressed: false,
                tokens: Seq::empty(),
            }),
    {
        let ui = Ui {
            overlay: false,
            hide_at: None,
            recording: false,
            suppressed: false,
            tokens: Vec::new(),
        };
        assert(texts(ui.tokens@) =~= Seq::<Seq<char>>::empty());
        ui
    }

    /// The time to wake up at, where something is planned.
    pub fn deadline(&self) -> (at: Option<u64>)
        ensures
            match at {
                Some(t) => self@.hide_at == Some(t as int),
                None => self@.hide_at is None,
            },
    {
        self.hide_at
    }

    /// The words that a correction can be offered for.
    pub fn recent_tokens(&self) -> (tokens: &[String])
        ensures
            texts(tokens@) == self@.tokens,
    {
        self.tokens.as_slice()
    }

    /// Takes an event in, at the time `now`, and says what to do.
    pub fn on_event(&mut self, event: UiEvent, now: u64) -> (actions: Vec<UiAction>)
        requires
            event matches UiEvent::OverlayScheduleHide(d) ==> now + d <= u64::MAX,
        ensures
            final(self)@ == ui_after(old(self)@, event@, now as int),
            ui_action_texts(actions@) == ui_actions(old(self)@, event@, now as int),
    {
        let ghost expected = ui_actions(self@, event@, now as int);
        let mut actions: Vec<UiAction> = Vec::new();
        match event {
            UiEvent::Started { overlay } => {
                self.overlay = overlay;
            },
            UiEvent::Woken => {
                match self.hide_at {
                    Some(at) => {
                        if now >= at {
                            if self.overlay {
                                actions.push(UiAction::HideOverlay);
                            }
                            self.hide_at = None;
                        }
                    },
                    None => {},
                }
            },
            UiEvent::RecordingStarted(detection) => {
                self.recording = true;
                self.suppressed = detection.suppresses_panel();
                actions.push(UiAction::RecordingIcon);
            },
            UiEvent::RecordingStopped => {
                self.recording = false;
                actions.push(UiAction::IdleIcon);
            },
            UiEvent::Paused => {
                if self.recording {
                    actions.push(UiAction::PausedIcon);
                }
            },
            UiEvent::Resumed => {
                if self.recording {
                    actions.push(UiAction::RecordingIcon);
                }
            },
            UiEvent::OverlayText(text) => {
                if self.overlay {
                    match text {
                        Some(t) => {
                            if self.suppressed {
                                actions.push(UiAction::HideOverlay);
                            } else {
                                actions.push(UiAction::ShowText(t));
                            }
                        },
                        None => {
                            actions.push(UiAction::HideOverlay);
                            actions.push(UiAction::ClearOverlay);
                        },
                    }
                    self.hide_at = None;
                }
            },
            UiEvent::OverlayScheduleHide(delay) => {
                self.hide_at = Some(now + delay);
            },
            UiEvent::RecentTokensUpdated(tokens) => {
                self.tokens = tokens;
            },
            UiEvent::MenuClick { id, marks } => {
                match menu_command(id.as_str()) {
                    MenuCommand::Quit => {
                        actions.push(UiAction::Quit);
                    },
                    MenuCommand::UpdateSettings => {
                        match marks {
                            Some(settings) => {
                                actions.push(UiAction::StoreSettings(settings));
                            },
                            None => {},
                        }
                    },
                    MenuCommand::EditTerms => {
                        actions.push(UiAction::EditTerms);
                    },
                    MenuCommand::EditReplacements => {
                        actions.push(UiAction::EditReplacements);
                    },
                    MenuCommand::TeachCorrection => {
                        actions.push(UiAction::TeachCorrection);
                    },
                    MenuCommand::Diagnose => {
                        actions.push(UiAction::Diagnose);
                    },
                    MenuCommand::Restart => {
                        actions.push(UiAction::Restart);
                    },
                    MenuCommand::Unknown => {},
                }
            },
        }
        assert(ui_action_texts(actions@) =~= expected);
        actions
    }
}

/// The locale to record in: that of the input source where the user has switched that on.
pub fn session_locale(settings: Settings, input_locale: String) -> (locale: String)
    ensures
        locale@ == if settings.auto_locale {
            input_locale@
        } else {
            "zh-TW"@
        },
{
    if settings.auto_locale {
        input_locale
    } else {
        LOCALE.to_owned()
    }
}

/// While a text field has the focus, the panel is never shown.
pub proof fn panel_stays_out_of_the_way(state: UiState, event: EventText, now: int)
    requires
        state.suppressed,
    ensures
        forall|k: int|
            0 <= k < ui_actions(state, event, now).len() ==> !(#[trigger] ui_actions(
                state,
                event,
                now,
            )[k] is ShowText),
{
}

/// While nothing is recorded the icon stays as it is until a recording starts or has stopped.
pub proof fn icon_says_when_nothing_is_recorded(state: UiState, event: EventText, now: int)
    requires
        !state.recording,
        !(event is RecordingStarted),
    ensures
        !ui_after(state, event, now).recording,
        forall|k: int|
            0 <= k < ui_actions(state, event, now).len() ==> {
                &&& !(#[trigger] ui_actions(state, event, now)[k] is RecordingIcon)
                &&& !(ui_actions(state, event, now)[k] is PausedIcon)
            },
{
}

/// A panel that is to go away does so when its time has come and not before, unless a text comes
/// in between: that puts it off for good.
pub proof fn panel_goes_away_in_time(
    state: UiState,
    set_at: int,
    delay: int,
    woken_at: int,
    text: Option<Seq<char>>,
)
    requires
        state.overlay,
    ensures
        ({
            let planned = ui_after(state, EventText::OverlayScheduleHide(delay), set_at);
            let after_text = ui_after(planned, EventText::OverlayText(text), set_at);
            &&& ui_actions(planned, EventText::Woken, woken_at) == if woken_at >= set_at + delay {
                seq![UiActionText::HideOverlay]
            } else {
                Seq::empty()
            }
            &&& after_text.hide_at is None
            &&& ui_actions(after_text, EventText::Woken, woken_at).len() == 0
        }),
{
}

/// Choosing an entry does what its title says: the entry to quit quits, that to edit terms opens the
/// terms, and so on for all of them.
pub proof fn entries_do_what_they_say(
    version: Seq<char>,
    settings: Settings,
    k: int,
    id: Seq<char>,
    title: Seq<char>,
    state: UiState,
    marks: Settings,
    now: int,
)
    requires
        0 <= k < menu_for(version, settings).len(),
        is_entry(menu_for(version, settings)[k], id, title),
    ensures
        ({
            let done = ui_actions(state, EventText::MenuClick(id, Some(marks)), now);
            &&& title == "結束 raflow"@ ==> done == seq![UiActionText::Quit]
            &&& title == "重新啟動 raflow"@ ==> done == seq![UiActionText::Restart]
            &&& title == "診斷…"@ ==> done == seq![UiActionText::Diagnose]
            &&& title == "教 raflow 一個更正…"@ ==> done == seq![UiActionText::TeachCorrection]
            &&& title == "編輯自訂詞彙…"@ ==> done == seq![UiActionText::EditTerms]
            &&& title == "編輯取代規則…"@ ==> done == seq![UiActionText::EditReplacements]
            &&& title == "依輸入法自動切換語言"@ ==> done == seq![
                UiActionText::StoreSettings(marks),
            ]
            &&& title == "Whisper 智慧校正（中文/中英混講）"@ ==> done == seq![
                UiActionText::StoreSettings(marks),
            ]
        }),
{
    lemma_titles();
    lemma_ids();
}

/// The check marks show the settings, each its own.
pub proof fn check_marks_show_the_settings(
    version: Seq<char>,
    settings: Settings,
    k: int,
    id: Seq<char>,
    title: Seq<char>,
    checked: bool,
)
    requires
        0 <= k < menu_for(version, settings).len(),
        menu_for(version, settings)[k] == EntryText::Check(id, title, checked),
    ensures
        title == "依輸入法自動切換語言"@ ==> checked == settings.auto_locale,
        title == "Whisper 智慧校正（中文/中英混講）"@ ==> checked
            == settings.whisper_correction,
{
    lemma_titles();
}

proof fn lemma_titles()
    ensures
        "結束 raflow"@.len() == 9,
        "重新啟動 raflow"@.len() == 11,
        "診斷…"@.len() == 3,
        "教 raflow 一個更正…"@.len() == 14,
        "編輯自訂詞彙…"@.len() == 7,
        "編輯取代規則…"@.len() == 7,
        "編輯自訂詞彙…"@ != "編輯取代規則…"@,
        "依輸入法自動切換語言"@.len() == 10,
        "Whisper 智慧校正（中文/中英混講）"@.len() == 21,
{
    reveal_strlit("結束 raflow");
    reveal_strlit("重新啟動 raflow");
    reveal_strlit("診斷…");
    reveal_strlit("教 raflow 一個更正…");
    reveal_strlit("編輯自訂詞彙…");
    reveal_strlit("編輯取代規則…");
    reveal_strlit("依輸入法自動切換語言");
    reveal_strlit("Whisper 智慧校正（中文/中英混講）");
    assert("編輯自訂詞彙…"@[2] != "編輯取代規則…"@[2]);
}

proof fn lemma_ids()
    ensures
        "quit"@.len() == 4,
        "settings.auto_locale"@.len() == 20,
        "settings.whisper_correction"@.len() == 27,
        "edit.terms"@.len() == 10,
        "edit.replacements"@.len() == 17,
        "edit.teach_correction"@.len() == 21,
        "diagnostics"@.len() == 11,
        "restart"@.len() == 7,
{
    reveal_strlit("quit");
    reveal_strlit("settings.auto_locale");
    reveal_strlit("settings.whisper_correction");
    reveal_strlit("edit.terms");
    reveal_strlit("edit.replacements");
    reveal_strlit("edit.teach_correction");
    reveal_strlit("diagnostics");
    reveal_strlit("restart");
}

/// What the loop keeps in mind after some events, each with its time.
pub open spec fn ui_after_all(events: Seq<(EventText, int)>) -> UiState
    decreases events.len(),
{
    if events.len() == 0 {
        UiState {
            overlay: false,
            hide_at: None,
            recording: false,
            suppressed: false,
            tokens: Seq::empty(),
        }
    } else {
        ui_after(ui_after_all(events.drop_last()), events.last().0, events.last().1)
    }
}

/// The icon of the menu bar.
pub enum Icon {
    Idle,
    Recording,
    Paused,
}

/// The icon after an action.
pub open spec fn icon_after_action(icon: Icon, action: UiActionText) -> Icon {
    match action {
        UiActionText::IdleIcon => Icon::Idle,
        UiActionText::RecordingIcon => Icon::Recording,
        UiActionText::PausedIcon => Icon::Paused,
        _ => icon,
    }
}

/// The icon after some actions.
pub open spec fn icon_after(icon: Icon, actions: Seq<UiActionText>) -> Icon
    decreases actions.len(),
{
    if actions.len() == 0 {
        icon
    } else {
        icon_after_action(icon_after(icon, actions.drop_last()), actions.last())
    }
}

/// The icon after some events, where what each of them calls for is done.
pub open spec fn icon_shown(events: Seq<(EventText, int)>) -> Icon
    decreases events.len(),
{
    if events.len() == 0 {
        Icon::Idle
    } else {
        icon_after(
            icon_shown(events.drop_last()),
            ui_actions(ui_after_all(events.drop_last()), events.last().0, events.last().1),
        )
    }
}

/// The text on the panel after an action; none where the panel is not shown.
pub open spec fn panel_after_action(
    panel: Option<Seq<char>>,
    action: UiActionText,
) -> Option<Seq<char>> {
    match action {
        UiActionText::ShowText(t) => Some(t),
        UiActionText::HideOverlay => None,
        _ => panel,
    }
}

/// The text on the panel after some actions.
pub open spec fn panel_after(panel: Option<Seq<char>>, actions: Seq<UiActionText>) -> Option<
    Seq<char>,
>
    decreases actions.len(),
{
    if actions.len() == 0 {
        panel
    } else {
        panel_after_action(panel_after(panel, actions.drop_last()), actions.last())
    }
}

/// The text on the panel after some events, where what each of them calls for is done.
pub open spec fn panel_shown(events: Seq<(EventText, int)>) -> Option<Seq<char>>
    decreases events.len(),
{
    if events.len() == 0 {
        None
    } else {
        panel_after(
            panel_shown(events.drop_last()),
            ui_actions(ui_after_all(events.drop_last()), events.last().0, events.last().1),
        )
    }
}

/// The event starts, pauses, resumes or stops a recording.
pub open spec fn is_about_recording(event: EventText) -> bool {
    event is RecordingStarted || event is RecordingStopped || event is Paused || event is Resumed
}

/// The icon says at all times whether the tool records: it is idle exactly while nothing is
/// recorded, and while something is, it tells what the newest of the events about the recording
/// was, a pause or not.
pub proof fn icon_tells_the_recording(
    before: Seq<(EventText, int)>,
    event: (EventText, int),
    later: Seq<(EventText, int)>,
)
    requires
        is_about_recording(event.0),
        forall|i: int| 0 <= i < later.len() ==> !is_about_recording((#[trigger] later[i]).0),
    ensures
        ({
            let all = before.push(event) + later;
            &&& event.0 is RecordingStarted ==> icon_shown(all) is Recording
            &&& event.0 is RecordingStopped ==> icon_shown(all) is Idle
            &&& icon_shown(all) is Idle <==> !ui_after_all(all).recording
            &&& event.0 is Paused ==> !(icon_shown(all) is Recording)
            &&& event.0 is Resumed ==> !(icon_shown(all) is Paused)
        }),
    decreases later.len(),
{
    let base = before.push(event);
    let all = base + later;
    if later.len() == 0 {
        assert(all == base);
        assert(base.drop_last() == before);
        assert(base.last() == event);
        lemma_icon_says_idle(before);
        lemma_icon_of_one(icon_shown(before), ui_actions(ui_after_all(before), event.0, event.1));
    } else {
        let init = later.drop_last();
        assert forall|i: int| 0 <= i < init.len() implies !is_about_recording(
            (#[trigger] init[i]).0,
        ) by {
            assert(init[i] == later[i]);
        }
        icon_tells_the_recording(before, event, init);
        let last = later[later.len() - 1];
        assert(!is_about_recording(last.0));
        assert(all.drop_last() == base + init);
        assert(all.last() == last);
        lemma_icon_left_alone(
            icon_shown(base + init),
            ui_actions(ui_after_all(base + init), last.0, last.1),
        );
    }
}

proof fn lemma_icon_of_one(icon: Icon, actions: Seq<UiActionText>)
    requires
        actions.len() <= 1,
    ensures
        icon_after(icon, actions) == if actions.len() == 0 {
            icon
        } else {
            icon_after_action(icon, actions[0])
        },
{
    if actions.len() == 1 {
        assert(icon_after(icon, actions.drop_last()) == icon);
    }
}

proof fn lemma_icon_left_alone(icon: Icon, actions: Seq<UiActionText>)
    requires
        forall|k: int|
            0 <= k < actions.len() ==> {
                &&& !(#[trigger] actions[k] is IdleIcon)
                &&& !(actions[k] is RecordingIcon)
                &&& !(actions[k] is PausedIcon)
            },
    ensures
        icon_after(icon, actions) == icon,
    decreases actions.len(),
{
    if actions.len() > 0 {
        let init = actions.drop_last();
        assert forall|k: int| 0 <= k < init.len() implies {
            &&& !(#[trigger] init[k] is IdleIcon)
            &&& !(init[k] is RecordingIcon)
            &&& !(init[k] is PausedIcon)
        } by {
            assert(init[k] == actions[k]);
        }
        lemma_icon_left_alone(icon, init);
        assert(actions.last() == actions[actions.len() - 1]);
    }
}

proof fn lemma_icon_says_idle(events: Seq<(EventText, int)>)
    ensures
        icon_shown(events) is Idle <==> !ui_after_all(events).recording,
    decreases events.len(),
{
    if events.len() > 0 {
        let init = events.drop_last();
        lemma_icon_says_idle(init);
        let actions = ui_actions(ui_after_all(init), events.last().0, events.last().1);
        if is_about_recording(events.last().0) {
            lemma_icon_of_one(icon_shown(init), actions);
        } else {
            lemma_icon_left_alone(icon_shown(init), actions);
        }
    }
}

/// A text that comes while there is a panel is on it at once, unless the recording began with the
/// focus in a text field: then the panel is away.
pub proof fn panel_shows_the_newest_text(
    before: Seq<(EventText, int)>,
    hides_panel: bool,
    at: int,
    later: Seq<(EventText, int)>,
    text: Seq<char>,
    now: int,
)
    requires
        forall|i: int| 0 <= i < later.len() ==> !((#[trigger] later[i]).0 is RecordingStarted),
        ui_after_all(
            before.push((EventText::RecordingStarted { hides_panel }, at)) + later,
        ).overlay,
    ensures
        panel_shown(
            (before.push((EventText::RecordingStarted { hides_panel }, at)) + later).push(
                (EventText::OverlayText(Some(text)), now),
            ),
        ) == if hides_panel {
            None
        } else {
            Some(text)
        },
{
    let all = before.push((EventText::RecordingStarted { hides_panel }, at)) + later;
    lemma_suppressed(before, hides_panel, at, later);
    let shown = all.push((EventText::OverlayText(Some(text)), now));
    assert(shown.drop_last() == all);
    assert(shown.last() == (EventText::OverlayText(Some(text)), now));
    let actions = ui_actions(ui_after_all(all), EventText::OverlayText(Some(text)), now);
    assert(actions.len() == 1);
    assert(panel_after(panel_shown(all), actions.drop_last()) == panel_shown(all));
}

proof fn lemma_suppressed(
    before: Seq<(EventText, int)>,
    hides_panel: bool,
    at: int,
    later: Seq<(EventText, int)>,
)
    requires
        forall|i: int| 0 <= i < later.len() ==> !((#[trigger] later[i]).0 is RecordingStarted),
    ensures
        ui_after_all(
            before.push((EventText::RecordingStarted { hides_panel }, at)) + later,
        ).suppressed == hides_panel,
    decreases later.len(),
{
    let base = before.push((EventText::RecordingStarted { hides_panel }, at));
    let all = base + later;
    if later.len() == 0 {
        assert(all == base);
        assert(base.last() == (EventText::RecordingStarted { hides_panel }, at));
    } else {
        let init = later.drop_last();
        assert forall|i: int| 0 <= i < init.len() implies !(
        (#[trigger] init[i]).0 is RecordingStarted) by {
            assert(init[i] == later[i]);
        }
        lemma_suppressed(before, hides_panel, at, init);
        assert(all.drop_last() == base + init);
        assert(all.last() == later[later.len() - 1]);
    }
}

/// An empty text takes the panel away.
pub proof fn empty_texts_take_the_panel_away(before: Seq<(EventText, int)>, now: int)
    requires
        ui_after_all(before).overlay,
    ensures
        panel_shown(before.push((EventText::OverlayText(None), now))) is None,
{
    let all = before.push((EventText::OverlayText(None), now));
    assert(all.drop_last() == before);
    assert(all.last() == (EventText::OverlayText(None), now));
    let actions = ui_actions(ui_after_all(before), EventText::OverlayText(None), now);
    let first = actions.drop_last();
    assert(first.len() == 1);
    assert(first.drop_last().len() == 0);
    assert(panel_after(panel_shown(before), first) is None);
    assert(panel_after(panel_shown(before), actions) is None);
}

/// The words that a correction is offered for are the newest that were sent, whatever has happened
/// since.
pub proof fn newest_words_are_offered(
    before: Seq<(EventText, int)>,
    tokens: Seq<Seq<char>>,
    at: int,
    later: Seq<(EventText, int)>,
)
    requires
        forall|i: int| 0 <= i < later.len() ==> !((#[trigger] later[i]).0 is RecentTokensUpdated),
    ensures
        ui_after_all(
            before.push((EventText::RecentTokensUpdated(tokens), at)) + later,
        ).tokens == tokens,
    decreases later.len(),
{
    let base = before.push((EventText::RecentTokensUpdated(tokens), at));
    let all = base + later;
    if later.len() == 0 {
        assert(all == base);
        assert(base.last() == (EventText::RecentTokensUpdated(tokens), at));
    } else {
        let init = later.drop_last();
        assert forall|i: int| 0 <= i < init.len() implies !(
        (#[trigger] init[i]).0 is RecentTokensUpdated) by {
            assert(init[i] == later[i]);
        }
        newest_words_are_offered(before, tokens, at, init);
        assert(all.drop_last() == base + init);
        assert(all.last() == later[later.len() - 1]);
    }
}

} // verus!
