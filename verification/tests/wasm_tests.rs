use penguin_game::wasm::{demangle_multiline, output_prefix, parse_options};

fn entry(k: &str, v: &str) -> (String, String) {
    (k.to_string(), v.to_string())
}

#[test]
fn options_are_records_of_key_and_value() {
    let buf = b"url_fragment\x01#demo-new\x00volume\x0150";
    assert_eq!(parse_options(buf), vec![entry("url_fragment", "#demo-new"), entry("volume", "50")]);
}

#[test]
fn options_split_at_the_first_separator() {
    assert_eq!(parse_options(b"a\x01b\x01c\x00"), vec![entry("a", "b\x01c")]);
}

#[test]
fn malformed_option_records_are_skipped() {
    let buf = b"no separator\x00\xff\x01bad key\x00good\x01\xfe\x00ok\x01yes";
    assert_eq!(parse_options(buf), vec![entry("ok", "yes")]);
}

#[test]
fn empty_option_buffer_gives_nothing() {
    assert!(parse_options(b"").is_empty());
    assert_eq!(parse_options(b"\x01"), vec![entry("", "")]);
}

#[test]
fn duplicate_option_keys_are_all_kept_in_order() {
    assert_eq!(parse_options(b"k\x011\x00k\x012"), vec![entry("k", "1"), entry("k", "2")]);
}

#[test]
fn stack_trace_symbols_are_demangled() {
    let trace = "run@game.wasm._ZN3foo3barE (http://x/game.wasm:1:2)\nplain line\n";
    assert_eq!(
        demangle_multiline(trace),
        "run@game.wasm.foo::bar(http://x/game.wasm:1:2)\nplain line\n"
    );
}

#[test]
fn symbol_runs_up_to_at_sign() {
    let trace = "g.wasm. _ZN4testE @http://x";
    assert_eq!(demangle_multiline(trace), "g.wasm.test@http://x\n");
}

#[test]
fn lines_keep_carriage_returns_only_on_the_last_line() {
    assert_eq!(demangle_multiline("a\r\nb\r"), "a\nb\r\n");
    assert_eq!(demangle_multiline(""), "");
    assert_eq!(demangle_multiline("x\n\n"), "x\n\n");
}

#[test]
fn non_rust_symbols_stay() {
    assert_eq!(demangle_multiline("m.wasm.main"), "m.wasm.main\n");
}

#[test]
fn output_is_cut_to_the_buffer() {
    assert_eq!(output_prefix(b"hello", 3), b"hel");
    assert_eq!(output_prefix(b"hi", 3), b"hi");
}
