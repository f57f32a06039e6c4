use penguin_game::pico_args::{validate_shortflag, Arguments, Error, Keys};

fn args(list: &[&[u8]]) -> Arguments {
    Arguments::from_vec(list.iter().map(|a| a.to_vec()).collect())
}

fn parse_u32(s: &str) -> Result<u32, String> {
    s.parse::<u32>().map_err(|e| e.to_string())
}

fn byte_len(b: &[u8]) -> Result<usize, String> {
    if b.is_empty() { Err("empty".to_string()) } else { Ok(b.len()) }
}

#[test]
fn flags_are_consumed_once_per_occurrence() {
    let mut a = args(&[b"-v", b"file", b"--verbose"]);
    let keys = Keys::from_pair(["-v", "--verbose"]);
    assert!(a.contains(keys));
    assert!(a.contains(keys));
    assert!(!a.contains(keys));
    assert_eq!(a.finish(), vec![b"file".to_vec()]);
}

#[test]
fn options_take_the_next_argument() {
    let mut a = args(&[b"--width", b"640", b"rest"]);
    assert_eq!(a.value_from_fn(Keys::from_key("--width"), parse_u32).unwrap(), 640);
    assert_eq!(a.finish(), vec![b"rest".to_vec()]);
}

#[test]
fn missing_options() {
    let mut a = args(&[b"x"]);
    let keys = Keys::from_pair(["-w", "--width"]);
    assert!(a.opt_value_from_fn(keys, parse_u32).unwrap().is_none());
    let err = a.value_from_fn(keys, parse_u32).unwrap_err();
    assert_eq!(err.to_string(), "the '-w/--width' option must be set");
    let err = a.value_from_fn(Keys::from_key("-h"), parse_u32).unwrap_err();
    assert_eq!(err.to_string(), "the '-h' option must be set");
}

#[test]
fn option_without_a_value() {
    let mut a = args(&[b"--width"]);
    let err = a.value_from_fn(Keys::from_key("--width"), parse_u32).unwrap_err();
    assert!(matches!(err, Error::OptionWithoutAValue("--width")));
    assert_eq!(err.to_string(), "the '--width' option doesn't have an associated value");
}

#[test]
fn failed_value_parse_keeps_the_arguments() {
    let mut a = args(&[b"--width", b"wide"]);
    let err = a.value_from_fn(Keys::from_key("--width"), parse_u32).unwrap_err();
    assert_eq!(err.to_string(), "failed to parse 'wide': invalid digit found in string");
    assert_eq!(a.finish().len(), 2);
}

#[test]
fn non_utf8_values_are_refused_as_text_but_not_as_bytes() {
    let mut a = args(&[b"--name", b"\xff\xfe"]);
    let err = a.value_from_fn(Keys::from_key("--name"), parse_u32).unwrap_err();
    assert!(matches!(err, Error::NonUtf8Argument));
    assert_eq!(err.to_string(), "argument is not a UTF-8 string");
    assert_eq!(a.value_from_os_str(Keys::from_key("--name"), byte_len).unwrap(), 2);
}

#[test]
fn repeated_options_give_all_values() {
    let mut a = args(&[b"--n", b"1", b"x", b"--n", b"2"]);
    assert_eq!(a.values_from_fn(Keys::from_key("--n"), parse_u32).unwrap(), vec![1, 2]);
    assert_eq!(a.finish(), vec![b"x".to_vec()]);
    let mut b = args(&[b"--n", b"1", b"--n", b""]);
    let err = b.values_from_os_str(Keys::from_key("--n"), byte_len).unwrap_err();
    assert_eq!(err.to_string(), "failed to parse a binary argument: empty");
}

#[test]
fn free_arguments_in_order() {
    let mut a = args(&[b"7", b"eight"]);
    assert_eq!(a.free_from_fn(parse_u32).unwrap(), 7);
    assert!(matches!(a.free_from_fn(parse_u32), Err(Error::Utf8ArgumentParsingFailed { .. })));
    let err = a.free_from_fn(parse_u32).unwrap_err();
    assert_eq!(err.to_string(), "free-standing argument is missing");
    assert!(a.opt_free_from_os_str(byte_len).unwrap().is_none());
}

#[test]
fn subcommands() {
    let mut a = args(&[b"run", b"-x"]);
    assert_eq!(a.subcommand().unwrap(), Some("run".to_string()));
    assert_eq!(a.subcommand().unwrap(), None);
    let mut b = args(&[b"\xff"]);
    assert!(matches!(b.subcommand(), Err(Error::NonUtf8Argument)));
    assert!(b.finish().is_empty());
}

#[test]
fn keys_and_short_flags() {
    let keys = Keys::from_pair(["-v", "--verbose"]);
    assert_eq!(keys.first(), "-v");
    assert_eq!(keys.second(), "--verbose");
    assert_eq!(Keys::from_key("--x").second(), "");
    assert!(validate_shortflag("-v"));
    assert!(validate_shortflag("-vvv"));
    assert!(!validate_shortflag("-vx"));
}

#[test]
fn key_and_value_joined_by_equals() {
    let mut a = args(&[b"--num=5"]);
    assert_eq!(a.value_from_fn(Keys::from_key("--num"), parse_u32).unwrap(), 5);
    assert!(a.finish().is_empty());
    let mut b = args(&[b"-n=7", b"--num", b"8"]);
    let keys = Keys::from_pair(["-n", "--num"]);
    assert_eq!(b.value_from_fn(keys, parse_u32).unwrap(), 8);
    assert_eq!(b.value_from_fn(keys, parse_u32).unwrap(), 7);
    let mut c = args(&[b"--num="]);
    assert!(matches!(c.value_from_fn(Keys::from_key("--num"), parse_u32), Err(Error::OptionWithoutAValue("--num"))));
    let mut d = args(&[b"--num=1", b"--num=2"]);
    assert_eq!(d.values_from_fn(Keys::from_key("--num"), parse_u32).unwrap(), vec![1, 2]);
}
