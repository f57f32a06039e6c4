use penguin_game::demo::{
    expect_keyword, parse_movie, unparse_movie, unparse_movie_to_string, DemoAction,
    DemoMovie, DemoParseError, DemoParseErrorDetail, DemoPlayback, DemoRecorder,
};
use penguin_game::input::{Input, InputSet};
use penguin_game::text_utils::split_while;

fn look_degrees(action: &DemoAction) -> f32 {
    match action {
        DemoAction::SetLookAngle(text) => std::str::from_utf8(text).unwrap().parse().unwrap(),
        other => panic!("not a look action: {other:?}"),
    }
}

#[test]
fn demo_split_while_empty() {
    let (left, right) = split_while(b"aaaabcd", |c| *c == b'?');
    assert_eq!((left, right), (&b""[..], &b"aaaabcd"[..]));
}

#[test]
fn demo_split_while_empty_string() {
    let (left, right) = split_while(b"", |c| *c == b'?');
    assert_eq!((left, right), (&b""[..], &b""[..]));
}

#[test]
fn demo_split_while_mixed() {
    let (left, right) = split_while(b"aaaabcd", |c| *c == b'a');
    assert_eq!((left, right), (&b"aaaa"[..], &b"bcd"[..]));
}

#[test]
fn expect_keyword_ok() {
    assert_eq!(Some(&b" banana"[..]), expect_keyword(b"apple banana", b"apple"));
}

#[test]
fn expect_keyword_fail() {
    assert_eq!(None, expect_keyword(b"apple banana", b"cherry"));
}

#[test]
fn expect_keyword_fail_empty_source() {
    assert_eq!(None, expect_keyword(b"", b"cherry"));
}

#[test]
fn wrong_version() {
    let source = b"penguindemo-text-v69\n";
    let err = parse_movie(source).unwrap_err();
    assert_eq!(err, DemoParseError {
        lineno: 1,
        colno: 1,
        detail: DemoParseErrorDetail::InvalidHeader
    });
}

#[test]
fn wrong_header() {
    let source = b"\x00WRONG";
    let err = parse_movie(source).unwrap_err();
    assert_eq!(err, DemoParseError {
        lineno: 1,
        colno: 1,
        detail: DemoParseErrorDetail::InvalidHeader
    });
}

#[test]
fn empty_movie() {
    let source = b"penguindemo-text-v0\n";
    let movie = parse_movie(source).unwrap();
    assert_eq!(movie.actions().as_slice(), []);
}

#[test]
fn simple_movie() {
    let source = b"penguindemo-text-v0\n\
        at 0: on left\n\
        at 9: on shoot \n\
        at 100: off shoot\n\
        at 257: off left\n\
        at 1000:on right\n";
    let movie = parse_movie(source).unwrap();
    assert_eq!(movie.actions().as_slice(), [
        (0, DemoAction::InputOn(Input::Left)),
        (9, DemoAction::InputOn(Input::Shoot)),
        (100, DemoAction::InputOff(Input::Shoot)),
        (257, DemoAction::InputOff(Input::Left)),
        (1000, DemoAction::InputOn(Input::Right)),
    ]);
}

#[test]
fn look_movie() {
    let source = b"penguindemo-text-v0\n\
        at 42: look 90\n\
        at 69: look 0\n\
        at 420: look -0.12345\n";
    let movie = parse_movie(source).unwrap();
    let actions = movie.actions();
    assert_eq!(actions.len(), 3);
    assert_eq!(actions[0].0, 42);
    assert_eq!(look_degrees(&actions[0].1), 90.0);
    assert_eq!(actions[1].0, 69);
    assert_eq!(look_degrees(&actions[1].1), 0.0);
    assert_eq!(actions[2].0, 420);
    assert_eq!(look_degrees(&actions[2].1), -0.12345);
}

#[test]
fn movie_with_comments() {
    let source = b"penguindemo-text-v0\n\
        # this comment takes an entire line
        at 42: look 90  # this comment is after a line\n\
        at 69: on left  # this too\n\
        at 420: off shoot  # this too\n";
    let movie = parse_movie(source).unwrap();
    let actions = movie.actions();
    assert_eq!(actions.len(), 3);
    assert_eq!(actions[0].0, 42);
    assert_eq!(look_degrees(&actions[0].1), 90.0);
    assert_eq!(actions[1], (69, DemoAction::InputOn(Input::Left)));
    assert_eq!(actions[2], (420, DemoAction::InputOff(Input::Shoot)));
}

#[test]
fn space_required_after_keyword() {
    let sources = [
        &b"penguindemo-text-v0\nat42: look 90\n"[..],
        &b"penguindemo-text-v0\nat 42: look90\n"[..],
        &b"penguindemo-text-v0\nat 42: onleft\n"[..],
    ];
    for source in sources {
        let err = parse_movie(source).unwrap_err();
        assert_eq!(err.lineno, 2);
        assert!(matches!(err.detail, DemoParseErrorDetail::InvalidSyntax(_)));
    }
}

#[test]
fn decreasing_update_numbers_are_refused() {
    let err = parse_movie(b"penguindemo-text-v0\nat 5: on left\nat 4: off left\n").unwrap_err();
    assert_eq!(err.lineno, 3);
    assert_eq!(err.detail, DemoParseErrorDetail::UpdateNumberDecreased);
}

#[test]
fn unparse_then_parse_gives_the_movie_back() {
    let source = b"penguindemo-text-v0\n\
        at 0: on left\n\
        at 9: look -12.5\n\
        at 9: on shoot\n\
        at 100: off shoot\n";
    let movie = parse_movie(source).unwrap();
    let text = unparse_movie(&movie);
    let again = parse_movie(&text).unwrap();
    assert_eq!(again.actions(), movie.actions());
    assert_eq!(
        unparse_movie_to_string(&movie),
        "penguindemo-text-v0\nat 0: on left\nat 9: look -12.5\nat 9: on shoot\nat 100: off shoot\n"
    );
}

#[test]
fn last_update_of_movies() {
    assert_eq!(DemoMovie::default().last_update(), None);
    let movie = parse_movie(b"penguindemo-text-v0\nat 3: on left\nat 77: off left\n").unwrap();
    assert_eq!(movie.last_update(), Some(77));
}

#[test]
fn playback_follows_the_movie() {
    let movie =
        parse_movie(b"penguindemo-text-v0\nat 1: on left\nat 2: look 45\nat 3: off left\n").unwrap();
    let mut playback = DemoPlayback::new(movie);
    assert!(!playback.is_input_down(Input::Left));
    assert_eq!(playback.look_angle_degrees(), b"0");
    playback.next_update(); // update 0
    assert!(!playback.is_input_down(Input::Left));
    playback.next_update(); // update 1
    assert!(playback.is_input_down(Input::Left));
    playback.next_update(); // update 2
    assert_eq!(playback.look_angle_degrees(), b"45");
    playback.next_update(); // update 3
    assert!(!playback.is_input_down(Input::Left));
}

#[test]
fn recording_is_played_back() {
    let mut recorder = DemoRecorder::new(0);
    let mut down = InputSet::new();
    down.insert(Input::Right);
    recorder.record_inputs(down);
    recorder.record_inputs(down);
    recorder.record_inputs(InputSet::new());
    let movie = recorder.collect_recording();
    assert_eq!(movie.actions().as_slice(), [
        (0, DemoAction::InputOn(Input::Right)),
        (2, DemoAction::InputOff(Input::Right)),
    ]);
    let mut playback = DemoPlayback::new(movie);
    playback.next_update();
    assert!(playback.is_input_down(Input::Right));
    playback.next_update();
    assert!(playback.is_input_down(Input::Right));
    playback.next_update();
    assert!(!playback.is_input_down(Input::Right));
}

#[test]
fn error_column_ignores_trailing_whitespace() {
    let err = parse_movie(b"penguindemo-text-v0\nat 42: look90  \n").unwrap_err();
    assert_eq!(err, DemoParseError {
        lineno: 2,
        colno: 12,
        detail: DemoParseErrorDetail::InvalidSyntax("Expected space after keyword"),
    });
    let err = parse_movie(b"penguindemo-text-v0\n  at 42: look90\n").unwrap_err();
    assert_eq!(err.colno, 14);
}

#[test]
fn movie_of_no_actions_looks_ahead() {
    let movie = DemoMovie::new(Vec::new());
    assert_eq!(movie.actions().as_slice(), [(0, DemoAction::SetLookAngle(b"0".to_vec()))]);
    assert_eq!(movie.last_update(), Some(0));
}

#[test]
fn update_numbers_below_the_limit_only() {
    let ok = parse_movie(b"penguindemo-text-v0\nat 4611686018427387902: on left\n").unwrap();
    assert_eq!(ok.actions().as_slice(), [(4611686018427387902, DemoAction::InputOn(Input::Left))]);
    let err = parse_movie(b"penguindemo-text-v0\nat 4611686018427387903: on left\n").unwrap_err();
    assert_eq!(err, DemoParseError {
        lineno: 2,
        colno: 23,
        detail: DemoParseErrorDetail::InvalidSyntax("number is too large"),
    });
}
