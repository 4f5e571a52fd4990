//! Double taps and the user's own keystrokes.

use raflow::hotkey::{
    is_navigation_key, is_user_takeover, key_is_user_takeover, ActivityEvent, CmdWatcher,
    DoubleTapDetector, KeyboardEvent, DOUBLE_TAP_WINDOW_NANOS, RAFLOW_INJECT_MARKER,
};

fn detector() -> DoubleTapDetector {
    DoubleTapDetector::new(300)
}

fn t(start: u64, ms: u64) -> u64 {
    start + ms
}

#[test]
fn navigation_key_decision_table() {
    let cases: &[(&str, u16, bool)] = &[
        ("left arrow", 0x7B, true),
        ("right arrow", 0x7C, true),
        ("down arrow", 0x7D, true),
        ("up arrow", 0x7E, true),
        ("home", 0x73, true),
        ("end", 0x77, true),
        ("page up", 0x74, true),
        ("page down", 0x79, true),
        ("'a' key", 0x00, false),
        ("'s' key", 0x01, false),
        ("space", 0x31, false),
        ("delete/backspace", 0x33, false),
        ("return", 0x24, false),
        ("escape", 0x35, false),
    ];
    for (label, code, expected) in cases {
        assert_eq!(
            is_navigation_key(*code),
            *expected,
            "{label}: key_code={code:#x}"
        );
    }
}

#[test]
fn key_is_user_takeover_decision_table() {
    let cases: &[(&str, Option<i64>, u16, bool)] = &[
        ("raflow-injected 'a'", Some(RAFLOW_INJECT_MARKER), 0x00, false),
        ("raflow-injected newline", Some(RAFLOW_INJECT_MARKER), 0x24, false),
        ("raflow-injected backspace", Some(RAFLOW_INJECT_MARKER), 0x33, false),
        ("user types 'a'", Some(0), 0x00, true),
        ("user types comma", Some(0), 0x2B, true),
        ("user Shift+Enter (Return)", Some(0), 0x24, true),
        ("user backspace", Some(0), 0x33, true),
        ("user left arrow", Some(0), 0x7B, true),
        ("other injector", Some(100), 0x00, true),
        ("no userdata, nav key", None, 0x7C, true),
        ("no userdata, printable", None, 0x00, false),
        ("no userdata, return", None, 0x24, false),
    ];
    for (label, ud, code, expected) in cases {
        assert_eq!(
            key_is_user_takeover(*ud, *code),
            *expected,
            "{label}: user_data={ud:?} key_code={code:#x}"
        );
    }
}

#[test]
fn double_tap_within_window_fires() {
    let mut d = detector();
    let t0: u64 = 1_000;

    assert!(!d.on_cmd_down(t(t0, 0)));
    d.on_cmd_up(t(t0, 50));
    assert!(d.on_cmd_down(t(t0, 200)), "should fire (gap 150ms)");
}

#[test]
fn double_tap_outside_window_does_not_fire() {
    let mut d = detector();
    let t0: u64 = 1_000;

    assert!(!d.on_cmd_down(t(t0, 0)));
    d.on_cmd_up(t(t0, 50));
    assert!(
        !d.on_cmd_down(t(t0, 450)),
        "should not fire (gap exceeds window)"
    );
}

#[test]
fn other_key_during_first_press_breaks_sequence() {
    let mut d = detector();
    let t0: u64 = 1_000;

    assert!(!d.on_cmd_down(t(t0, 0)));
    d.on_other_event();
    d.on_cmd_up(t(t0, 50));
    assert!(
        !d.on_cmd_down(t(t0, 100)),
        "Cmd combo should not be misread as double-tap"
    );
}

#[test]
fn other_key_during_first_release_breaks_sequence() {
    let mut d = detector();
    let t0: u64 = 1_000;

    assert!(!d.on_cmd_down(t(t0, 0)));
    d.on_cmd_up(t(t0, 50));
    d.on_other_event();
    assert!(
        !d.on_cmd_down(t(t0, 200)),
        "interleaved keystroke should reset detector"
    );
}

#[test]
fn triple_tap_fires_once() {
    let mut d = detector();
    let t0: u64 = 1_000;

    assert!(!d.on_cmd_down(t(t0, 0)));
    d.on_cmd_up(t(t0, 30));
    assert!(d.on_cmd_down(t(t0, 100)), "2nd down → fire");
    d.on_cmd_up(t(t0, 130));
    assert!(
        !d.on_cmd_down(t(t0, 200)),
        "3rd down should start new sequence (not fire alone)"
    );
}

#[test]
fn quadruple_tap_fires_twice() {
    let mut d = detector();
    let t0: u64 = 1_000;

    assert!(!d.on_cmd_down(t(t0, 0)));
    d.on_cmd_up(t(t0, 30));
    assert!(d.on_cmd_down(t(t0, 100)), "2nd down → fire #1");
    d.on_cmd_up(t(t0, 130));
    assert!(!d.on_cmd_down(t(t0, 200)), "3rd down restarts sequence");
    d.on_cmd_up(t(t0, 230));
    assert!(d.on_cmd_down(t(t0, 300)), "4th down → fire #2");
}

#[test]
fn cmd_up_without_prior_down_is_noop() {
    let mut d = detector();
    let t0: u64 = 1_000;

    d.on_cmd_up(t(t0, 0));
    assert!(!d.on_cmd_down(t(t0, 100)));
    d.on_cmd_up(t(t0, 130));
    assert!(d.on_cmd_down(t(t0, 200)));
}

#[test]
fn double_down_without_up_resets_press_timestamp() {
    let mut d = detector();
    let t0: u64 = 1_000;

    assert!(!d.on_cmd_down(t(t0, 0)));
    assert!(
        !d.on_cmd_down(t(t0, 50)),
        "no Cmd-up between → still not a valid double-tap"
    );
    d.on_cmd_up(t(t0, 100));
    assert!(
        d.on_cmd_down(t(t0, 200)),
        "subsequent valid double-tap should fire"
    );
}

#[test]
fn a_double_tap_of_cmd_is_found_in_reports() {
    let cmd = |down: bool| KeyboardEvent::FlagsChanged { cmd: down };
    let mut w = CmdWatcher::new(DOUBLE_TAP_WINDOW_NANOS);
    let ms = 1_000_000;
    assert!(!w.on_event(cmd(true), 0));
    assert!(!w.on_event(cmd(false), 50 * ms));
    assert!(!w.on_event(KeyboardEvent::Other, 60 * ms));
    assert!(w.on_event(cmd(true), 200 * ms));

    let mut w = CmdWatcher::new(DOUBLE_TAP_WINDOW_NANOS);
    w.on_event(cmd(true), 0);
    w.on_event(KeyboardEvent::Key, 10 * ms);
    w.on_event(cmd(false), 50 * ms);
    assert!(!w.on_event(cmd(true), 100 * ms), "Cmd with another key is no tap");

    let mut w = CmdWatcher::new(DOUBLE_TAP_WINDOW_NANOS);
    w.on_event(cmd(true), 0);
    w.on_event(cmd(false), 50 * ms);
    w.on_event(cmd(false), 60 * ms);
    assert!(!w.on_event(cmd(true), 100 * ms), "another modifier breaks the tap");
}

#[test]
fn clicks_and_keystrokes_of_the_user_are_told_from_the_tools_own() {
    assert!(is_user_takeover(ActivityEvent::MouseDown));
    assert!(!is_user_takeover(ActivityEvent::Other));
    let key = |user_data: Option<i64>| ActivityEvent::KeyDown {
        user_data,
        key_code: 0,
    };
    assert!(is_user_takeover(key(Some(0))));
    assert!(!is_user_takeover(key(Some(RAFLOW_INJECT_MARKER))));
    assert!(!is_user_takeover(key(None)));
}

#[test]
fn the_window_is_measured_from_press_to_press() {
    let mut d = DoubleTapDetector::new(300);
    assert!(!d.on_cmd_down(0));
    d.on_cmd_up(250);
    assert!(!d.on_cmd_down(400));
    d.on_cmd_up(690);
    assert!(d.on_cmd_down(700));
    assert!(!d.on_cmd_down(1_000));
    d.on_cmd_up(1_010);
    assert!(!d.on_cmd_down(1_301));
}
