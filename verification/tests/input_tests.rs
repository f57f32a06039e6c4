use std::borrow::Cow;

use penguin_game::input::{ComposedInput, Input, InputSet};

#[test]
fn input_sets() {
    let mut s = InputSet::new();
    assert!(!s.contains(Input::Left));
    s.insert(Input::Left);
    s.insert(Input::Shoot);
    assert!(s.contains(Input::Left));
    s.remove(Input::Left);
    assert!(!s.contains(Input::Left));
    assert!(s.contains(Input::Shoot));
    let all = InputSet::all();
    let rest = all.difference(s);
    assert!(rest.contains(Input::Right) && !rest.contains(Input::Shoot));
}

#[test]
fn composed_input_switches_at_the_threshold() {
    let names = (Cow::Borrowed("playback"), Cow::Borrowed("recording"));
    let mut c = ComposedInput::new(1u8, 2u8, 2, names);
    assert!(!c.uses_second());
    assert_eq!(c.describe("demo"), "playback (demo) [switching in 2 updates]");
    c.advance();
    c.advance();
    // update 1, the last one of the first device, is in progress
    assert!(c.uses_second());
    assert!(!c.queries_second());
    assert_eq!(c.describe("demo"), "playback (demo) [switching in 0 updates]");
    c.advance();
    // update 2, the first one of the second device, is in progress
    assert!(c.queries_second());
    assert_eq!(c.describe("kbd"), "recording (kbd)");
    assert_eq!(c.into_inner(), (1, 2));
}

#[test]
fn far_switch_has_no_countdown() {
    let names = (Cow::Borrowed("a"), Cow::Borrowed("b"));
    let c = ComposedInput::new((), (), 5000, names);
    assert_eq!(c.describe("x"), "a (x)");
}

#[test]
fn updates_are_routed_at_the_threshold() {
    let names = (Cow::Borrowed("a"), Cow::Borrowed("b"));
    let mut c = ComposedInput::new((), (), 2, names);
    let routed: Vec<bool> = (0..4).map(|_| c.begin_update()).collect();
    assert_eq!(routed, vec![false, false, true, true]);
    assert!(c.queries_second());
}
