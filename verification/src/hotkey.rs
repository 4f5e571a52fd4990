//! The double tap that starts and stops recording, and signs that the user has taken over.

use vstd::prelude::*;

verus! {

/// Keystrokes that the tool makes itself carry this mark, so that they are not taken for the
/// user's: the bytes of "raflow".
pub const RAFLOW_INJECT_MARKER: i64 = 0x7261_666c_6f77;

/// The two presses of a double tap are at most so many nanoseconds apart.
pub const DOUBLE_TAP_WINDOW_NANOS: u64 = 300_000_000;

#[derive(Debug, Clone, Copy, PartialEq, Eq)]
pub enum HotkeyEvent {
    Pressed,
    Released,
}

// ---------------------------------------------------------------------------
// Double tap
// ---------------------------------------------------------------------------

/// How far a double tap has come.
#[derive(Debug, Clone, Copy, PartialEq, Eq)]
pub enum TapState {
    Idle,
    /// The key is down for the first time.
    FirstPress { pressed_at: u64 },
    /// The key has been let go again; it went down at this time.
    FirstRelease { pressed_at: u64 },
}

/// What happens to the keyboard.
pub enum TapEvent {
    /// The key goes down at this time.
    Down(u64),
    /// The key comes up.
    Up,
    /// Something else happens.
    Other,
}

/// The second press at `now` comes soon enough after the first.
pub open spec fn in_time(pressed_at: u64, now: u64, window: u64) -> bool {
    now <= pressed_at + window
}

/// Whether an event completes a double tap.
pub open spec fn fires(state: TapState, event: TapEvent, window: u64) -> bool {
    match (state, event) {
        (TapState::FirstRelease { pressed_at }, TapEvent::Down(now)) => in_time(
            pressed_at,
            now,
            window,
        ),
        _ => false,
    }
}

/// How far a double tap has come after an event.
pub open spec fn tap_after(state: TapState, event: TapEvent, window: u64) -> TapState {
    match event {
        TapEvent::Down(now) => if fires(state, event, window) {
            TapState::Idle
        } else {
            TapState::FirstPress { pressed_at: now }
        },
        TapEvent::Up => match state {
            TapState::FirstPress { pressed_at } => TapState::FirstRelease { pressed_at },
            _ => state,
        },
        TapEvent::Other => TapState::Idle,
    }
}

/// Finds double taps of a key. Times count from any one moment on, in the unit of the window.
#[derive(Debug)]
pub struct DoubleTapDetector {
    state: TapState,
    window: u64,
}

impl DoubleTapDetector {
    pub closed spec fn state(&self) -> TapState {
        self.state
    }

    pub closed spec fn window(&self) -> u64 {
        self.window
    }

    /// The second press has to come within `window` of the first.
    pub fn new(window: u64) -> (d: Self)
        ensures
            d.state() == TapState::Idle,
            d.window() == window,
    {
        DoubleTapDetector { state: TapState::Idle, window }
    }

    /// The key goes down. Whether that completes a double tap.
    pub fn on_cmd_down(&mut self, now: u64) -> (fired: bool)
        ensures
            fired == fires(old(self).state(), TapEvent::Down(now), old(self).window()),
            final(self).state() == tap_after(
                old(self).state(),
                TapEvent::Down(now),
                old(self).window(),
            ),
            final(self).window() == old(self).window(),
    {
        match self.state {
            TapState::Idle | TapState::FirstPress { .. } => {
                self.state = TapState::FirstPress { pressed_at: now };
                false
            },
            TapState::FirstRelease { pressed_at } => {
                if now.saturating_sub(pressed_at) <= self.window {
                    self.state = TapState::Idle;
                    true
                } else {
                    self.state = TapState::FirstPress { pressed_at: now };
                    false
                }
            },
        }
    }

    /// The key comes up. When it does so plays no part.
    pub fn on_cmd_up(&mut self, _now: u64)
        ensures
            final(self).state() == tap_after(old(self).state(), TapEvent::Up, old(self).window()),
            final(self).window() == old(self).window(),
    {
        match self.state {
            TapState::FirstPress { pressed_at } => {
                self.state = TapState::FirstRelease { pressed_at };
            },
            _ => {},
        }
    }

    /// Another key is used: what was begun is no double tap.
    pub fn on_other_event(&mut self)
        ensures
            final(self).state() == TapState::Idle,
            final(self).window() == old(self).window(),
    {
        self.state = TapState::Idle;
    }
}

/// How far a double tap has come after some events.
pub open spec fn tap_after_all(events: Seq<TapEvent>, window: u64) -> TapState
    decreases events.len(),
{
    if events.len() == 0 {
        TapState::Idle
    } else {
        tap_after(tap_after_all(events.drop_last(), window), events.last(), window)
    }
}

/// How many double taps some events hold.
pub open spec fn fired_count(events: Seq<TapEvent>, window: u64) -> nat
    decreases events.len(),
{
    if events.len() == 0 {
        0
    } else {
        fired_count(events.drop_last(), window) + if fires(
            tap_after_all(events.drop_last(), window),
            events.last(),
            window,
        ) {
            1nat
        } else {
            0nat
        }
    }
}

/// How often the key goes down.
pub open spec fn down_count(events: Seq<TapEvent>) -> nat
    decreases events.len(),
{
    if events.len() == 0 {
        0
    } else {
        down_count(events.drop_last()) + if events.last() is Down {
            1nat
        } else {
            0nat
        }
    }
}

/// Every double tap takes two presses of its own: three presses are at most one double tap, four
/// at most two.
pub proof fn double_taps_take_two_presses(events: Seq<TapEvent>, window: u64)
    ensures
        2 * fired_count(events, window) + (if tap_after_all(events, window) is Idle {
            0int
        } else {
            1int
        }) <= down_count(events),
    decreases events.len(),
{
    if events.len() > 0 {
        double_taps_take_two_presses(events.drop_last(), window);
    }
}

/// Press, release, press, with nothing else between, is a double tap exactly where the two presses
/// are no further apart than the window, whenever the release came.
pub proof fn double_tap_is_press_release_press(before: Seq<TapEvent>, a: u64, c: u64, window: u64)
    requires
        !fires(tap_after_all(before, window), TapEvent::Down(a), window),
    ensures
        fires(
            tap_after_all(before.push(TapEvent::Down(a)).push(TapEvent::Up), window),
            TapEvent::Down(c),
            window,
        ) <==> in_time(a, c, window),
{
    let one = before.push(TapEvent::Down(a));
    let two = one.push(TapEvent::Up);
    assert(one.drop_last() == before);
    assert(two.drop_last() == one);
    assert(one.last() == TapEvent::Down(a));
    assert(two.last() == TapEvent::Up);
    assert(tap_after_all(one, window) == tap_after(
        tap_after_all(before, window),
        TapEvent::Down(a),
        window,
    ));
    assert(tap_after_all(two, window) == tap_after(
        tap_after_all(one, window),
        TapEvent::Up,
        window,
    ));
}

/// Anything else breaks a double tap up: the next press only begins a new one.
pub proof fn other_events_break_double_taps(before: Seq<TapEvent>, ups: Seq<TapEvent>, c: u64, window: u64)
    requires
        forall|i: int| 0 <= i < ups.len() ==> (#[trigger] ups[i]) is Up,
    ensures
        !fires(
            tap_after_all(before.push(TapEvent::Other) + ups, window),
            TapEvent::Down(c),
            window,
        ),
        tap_after_all(before.push(TapEvent::Other) + ups, window) is Idle,
    decreases ups.len(),
{
    let base = before.push(TapEvent::Other);
    let all = base + ups;
    if ups.len() == 0 {
        assert(all == base);
        assert(base.last() == TapEvent::Other);
    } else {
        let init = ups.drop_last();
        assert forall|i: int| 0 <= i < init.len() implies (#[trigger] init[i]) is Up by {
            assert(init[i] == ups[i]);
        }
        other_events_break_double_taps(before, init, c, window);
        assert(all.drop_last() == base + init);
        assert(all.last() == ups[ups.len() - 1]);
        assert(tap_after_all(all, window) == tap_after(
            tap_after_all(base + init, window),
            all.last(),
            window,
        ));
    }
}

// ---------------------------------------------------------------------------
// Watching the keyboard
// ---------------------------------------------------------------------------

/// What the system reports of the keyboard.
#[derive(Debug, Clone, Copy, PartialEq, Eq)]
pub enum KeyboardEvent {
    /// The modifier keys have changed; `cmd` tells whether Cmd is down now.
    FlagsChanged { cmd: bool },
    /// A key goes down or comes up.
    Key,
    /// Anything else.
    Other,
}

/// What a report means for double taps, where `was_down` tells whether Cmd was down before. Nothing
/// where it says nothing about keys.
pub open spec fn tap_event(was_down: bool, event: KeyboardEvent, now: u64) -> Option<TapEvent> {
    match event {
        KeyboardEvent::FlagsChanged { cmd } => if cmd != was_down {
            if cmd {
                Some(TapEvent::Down(now))
            } else {
                Some(TapEvent::Up)
            }
        } else {
            Some(TapEvent::Other)
        },
        KeyboardEvent::Key => Some(TapEvent::Other),
        KeyboardEvent::Other => None,
    }
}

/// Finds double taps of Cmd in what the system reports.
#[derive(Debug)]
pub struct CmdWatcher {
    detector: DoubleTapDetector,
    cmd_down: bool,
}

impl CmdWatcher {
    pub closed spec fn state(&self) -> TapState {
        self.detector.state()
    }

    pub closed spec fn window(&self) -> u64 {
        self.detector.window()
    }

    /// Whether Cmd was down when the modifier keys last changed.
    pub closed spec fn cmd_down(&self) -> bool {
        self.cmd_down
    }

    /// Cmd is up, and no double tap has begun.
    pub fn new(window: u64) -> (w: Self)
        ensures
            w.state() == TapState::Idle,
            w.window() == window,
            !w.cmd_down(),
    {
        CmdWatcher { detector: DoubleTapDetector::new(window), cmd_down: false }
    }

    /// Takes a report in. Whether it completes a double tap of Cmd.
    pub fn on_event(&mut self, event: KeyboardEvent, now: u64) -> (fired: bool)
        ensures
            final(self).window() == old(self).window(),
            final(self).cmd_down() == match event {
                KeyboardEvent::FlagsChanged { cmd } => cmd,
                _ => old(self).cmd_down(),
            },
            match tap_event(old(self).cmd_down(), event, now) {
                Some(tap) => {
                    &&& final(self).state() == tap_after(old(self).state(), tap, old(self).window())
                    &&& fired == fires(old(self).state(), tap, old(self).window())
                },
                None => final(self).state() == old(self).state() && !fired,
            },
    {
        match event {
            KeyboardEvent::FlagsChanged { cmd } => {
                let mut fired: bool = false;
                if cmd != self.cmd_down {
                    if cmd {
                        fired = self.detector.on_cmd_down(now);
                    } else {
                        self.detector.on_cmd_up(now);
                    }
                } else {
                    self.detector.on_other_event();
                }
                self.cmd_down = cmd;
                fired
            },
            KeyboardEvent::Key => {
                self.detector.on_other_event();
                false
            },
            KeyboardEvent::Other => false,
        }
    }
}

/// How far a double tap has come, and whether Cmd is down, after some reports, each with its time.
pub open spec fn watched(reports: Seq<(KeyboardEvent, u64)>, window: u64) -> (TapState, bool)
    decreases reports.len(),
{
    if reports.len() == 0 {
        (TapState::Idle, false)
    } else {
        let before = watched(reports.drop_last(), window);
        let event = reports.last().0;
        (
            match tap_event(before.1, event, reports.last().1) {
                Some(tap) => tap_after(before.0, tap, window),
                None => before.0,
            },
            match event {
                KeyboardEvent::FlagsChanged { cmd } => cmd,
                _ => before.1,
            },
        )
    }
}

/// Whether a press of Cmd at the time `now`, behind some reports, completes a double tap.
pub open spec fn press_fires(reports: Seq<(KeyboardEvent, u64)>, now: u64, window: u64) -> bool {
    let before = watched(reports, window);
    match tap_event(before.1, KeyboardEvent::FlagsChanged { cmd: true }, now) {
        Some(tap) => fires(before.0, tap, window),
        None => false,
    }
}

proof fn lemma_watched_push(
    reports: Seq<(KeyboardEvent, u64)>,
    event: KeyboardEvent,
    now: u64,
    window: u64,
)
    ensures
        ({
            let before = watched(reports, window);
            let after = watched(reports.push((event, now)), window);
            &&& after.0 == (match tap_event(before.1, event, now) {
                Some(tap) => tap_after(before.0, tap, window),
                None => before.0,
            })
            &&& after.1 == (match event {
                KeyboardEvent::FlagsChanged { cmd } => cmd,
                _ => before.1,
            })
        }),
{
    let all = reports.push((event, now));
    assert(all.drop_last() == reports);
    assert(all.last() == (event, now));
}

proof fn lemma_watched_quiet(
    reports: Seq<(KeyboardEvent, u64)>,
    quiet: Seq<(KeyboardEvent, u64)>,
    window: u64,
)
    requires
        forall|i: int| 0 <= i < quiet.len() ==> (#[trigger] quiet[i]).0 is Other,
    ensures
        watched(reports + quiet, window) == watched(reports, window),
    decreases quiet.len(),
{
    let all = reports + quiet;
    if quiet.len() == 0 {
        assert(all == reports);
    } else {
        let init = quiet.drop_last();
        assert forall|i: int| 0 <= i < init.len() implies (#[trigger] init[i]).0 is Other by {
            assert(init[i] == quiet[i]);
        }
        lemma_watched_quiet(reports, init, window);
        assert(quiet[quiet.len() - 1].0 is Other);
        assert(all.drop_last() == reports + init);
        assert(all.last() == quiet[quiet.len() - 1]);
    }
}

/// Cmd down, up and down again, with nothing of the keyboard between, is a double tap exactly where
/// the two presses are no further apart than the window, whatever went before, unless the first
/// press has itself completed one.
pub proof fn cmd_twice_in_time_is_a_double_tap(
    before: Seq<(KeyboardEvent, u64)>,
    a: u64,
    first: Seq<(KeyboardEvent, u64)>,
    b: u64,
    second: Seq<(KeyboardEvent, u64)>,
    c: u64,
    window: u64,
)
    requires
        !watched(before, window).1,
        !press_fires(before, a, window),
        forall|i: int| 0 <= i < first.len() ==> (#[trigger] first[i]).0 is Other,
        forall|i: int| 0 <= i < second.len() ==> (#[trigger] second[i]).0 is Other,
    ensures
        ({
            let down = before.push((KeyboardEvent::FlagsChanged { cmd: true }, a)) + first;
            let up = down.push((KeyboardEvent::FlagsChanged { cmd: false }, b)) + second;
            press_fires(up, c, window) <==> c <= a + window
        }),
{
    let pressed = before.push((KeyboardEvent::FlagsChanged { cmd: true }, a));
    let down = pressed + first;
    let released = down.push((KeyboardEvent::FlagsChanged { cmd: false }, b));
    lemma_watched_push(before, KeyboardEvent::FlagsChanged { cmd: true }, a, window);
    lemma_watched_quiet(pressed, first, window);
    lemma_watched_push(down, KeyboardEvent::FlagsChanged { cmd: false }, b, window);
    lemma_watched_quiet(released, second, window);
}

/// A key that is used breaks a double tap up, and so does another modifier key: however often Cmd
/// comes up after it, the next press of Cmd completes nothing. Shortcuts in a row are no double
/// tap.
pub proof fn shortcuts_are_no_double_tap(
    before: Seq<(KeyboardEvent, u64)>,
    key: KeyboardEvent,
    at: u64,
    later: Seq<(KeyboardEvent, u64)>,
    c: u64,
    window: u64,
)
    requires
        key is Key || key == (KeyboardEvent::FlagsChanged { cmd: watched(before, window).1 }),
        forall|i: int|
            0 <= i < later.len() ==> (#[trigger] later[i]).0 != (KeyboardEvent::FlagsChanged {
                cmd: true,
            }),
    ensures
        watched(before.push((key, at)) + later, window).0 is Idle,
        !press_fires(before.push((key, at)) + later, c, window),
    decreases later.len(),
{
    let base = before.push((key, at));
    let all = base + later;
    if later.len() == 0 {
        lemma_watched_push(before, key, at, window);
        assert(all == base);
    } else {
        let init = later.drop_last();
        assert forall|i: int| 0 <= i < init.len() implies (#[trigger] init[i]).0 != (
        KeyboardEvent::FlagsChanged { cmd: true }) by {
            assert(init[i] == later[i]);
        }
        shortcuts_are_no_double_tap(before, key, at, init, c, window);
        let last = later[later.len() - 1];
        assert(all == (base + init).push(last));
        lemma_watched_push(base + init, last.0, last.1, window);
    }
}

// ---------------------------------------------------------------------------
// Signs that the user has taken over
// ---------------------------------------------------------------------------

/// The keys that move the cursor: arrows, Home, End, Page Up and Page Down.
pub open spec fn moves_cursor(key_code: u16) -> bool {
    ||| key_code == 0x7b
    ||| key_code == 0x7c
    ||| key_code == 0x7d
    ||| key_code == 0x7e
    ||| key_code == 0x73
    ||| key_code == 0x77
    ||| key_code == 0x74
    ||| key_code == 0x79
}

/// Whether a key moves the cursor. The tool never makes such keystrokes itself.
pub fn is_navigation_key(key_code: u16) -> (b: bool)
    ensures
        b == moves_cursor(key_code),
{
    key_code == 0x7b || key_code == 0x7c || key_code == 0x7d || key_code == 0x7e || key_code == 0x73
        || key_code == 0x77 || key_code == 0x74 || key_code == 0x79
}

/// A keystroke is the user's: it does not carry the tool's mark. Where the mark cannot be read, only
/// keys that the tool never types count.
pub open spec fn is_users(user_data: Option<i64>, key_code: u16) -> bool {
    match user_data {
        Some(mark) => mark != RAFLOW_INJECT_MARKER,
        None => moves_cursor(key_code),
    }
}

/// Whether a keystroke is the user's.
pub fn key_is_user_takeover(user_data: Option<i64>, key_code: u16) -> (b: bool)
    ensures
        b == is_users(user_data, key_code),
{
    match user_data {
        Some(mark) => mark != RAFLOW_INJECT_MARKER,
        None => is_navigation_key(key_code),
    }
}

/// What the system reports while recording.
#[derive(Debug, Clone, Copy, PartialEq, Eq)]
pub enum ActivityEvent {
    MouseDown,
    KeyDown { user_data: Option<i64>, key_code: u16 },
    Other,
}

/// Whether a report shows that the user has taken over: a click, or a keystroke of the user's.
pub fn is_user_takeover(event: ActivityEvent) -> (b: bool)
    ensures
        b == match event {
            ActivityEvent::MouseDown => true,
            ActivityEvent::KeyDown { user_data, key_code } => is_users(user_data, key_code),
            ActivityEvent::Other => false,
        },
{
    match event {
        ActivityEvent::MouseDown => true,
        ActivityEvent::KeyDown { user_data, key_code } => key_is_user_takeover(user_data, key_code),
        ActivityEvent::Other => false,
    }
}

/// The tool's own keystrokes are never taken for the user's.
pub proof fn own_keystrokes_are_never_the_users(key_code: u16)
    ensures
        !is_users(Some(RAFLOW_INJECT_MARKER), key_code),
{
}

/// Any other keystroke whose mark can be read is the user's, whatever the key.
pub proof fn other_keystrokes_are_the_users(mark: i64, key_code: u16)
    requires
        mark != RAFLOW_INJECT_MARKER,
    ensures
        is_users(Some(mark), key_code),
{
}

/// With the window that is used, two presses are a double tap up to three tenths of a second apart.
pub proof fn double_taps_take_three_tenths_of_a_second(a: u64, c: u64)
    ensures
        in_time(a, c, DOUBLE_TAP_WINDOW_NANOS) <==> 10 * (c - a) <= 3 * 1_000_000_000,
{
}

} // verus!
