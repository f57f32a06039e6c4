//! The logic behind the browser build's glue: the option records that the page
//! hands over, and the demangling of stack traces.
use vstd::prelude::*;
use vstd::utf8::*;
use crate::text_utils::{
    find_pattern, first_occurrence, lemma_split_on_step, occurs_at, split_on, str_chars,
    string_from_chars, string_from_utf8,
};

verus! {

// ---------------------------------------------------------------------------
// Option records

/// Ends an option record.
pub const OPTION_RECORD_END: u8 = 0;

/// Separates an option's key from its value.
pub const OPTION_KEY_END: u8 = 1;

/// The key and value of one option record: the record is cut at its first
/// `OPTION_KEY_END`, and both halves must be UTF-8. A record without that byte,
/// or with a half that is not UTF-8, gives nothing.
pub open spec fn spec_option_entry(record: Seq<u8>) -> Option<(Seq<char>, Seq<char>)> {
    match record.index_of_first(OPTION_KEY_END) {
        None => None,
        Some(i) => {
            let key = record.take(i);
            let value = record.skip(i + 1);
            if valid_utf8(key) && valid_utf8(value) {
                Some((decode_utf8(key), decode_utf8(value)))
            } else {
                None
            }
        },
    }
}

/// The entries of all well-formed records, in order.
pub open spec fn spec_option_entries(records: Seq<Seq<u8>>) -> Seq<(Seq<char>, Seq<char>)>
    decreases records.len(),
{
    if records.len() == 0 {
        Seq::empty()
    } else {
        let init = spec_option_entries(records.drop_last());
        match spec_option_entry(records.last()) {
            Some(e) => init.push(e),
            None => init,
        }
    }
}

/// The options in `buf`: records end at `OPTION_RECORD_END` (the last one may
/// end with the buffer), and each well-formed record gives one entry.
pub open spec fn spec_parse_options(buf: Seq<u8>) -> Seq<(Seq<char>, Seq<char>)> {
    spec_option_entries(split_on(buf, OPTION_RECORD_END))
}

/// The views of key/value pairs.
pub open spec fn entry_views(entries: Seq<(String, String)>) -> Seq<(Seq<char>, Seq<char>)> {
    entries.map_values(|e: (String, String)| (e.0@, e.1@))
}

/// Reads one option record.
pub fn option_entry(record: &[u8]) -> (r: Option<(String, String)>)
    ensures
        match r {
            Some(e) => spec_option_entry(record@) == Some((e.0@, e.1@)),
            None => spec_option_entry(record@) is None,
        },
{
    let mut i: usize = 0;
    while i < record.len() && record[i] != OPTION_KEY_END
        invariant
            0 <= i <= record@.len(),
            forall|j: int| 0 <= j < i ==> record@[j] != OPTION_KEY_END,
        decreases record@.len() - i,
    {
        i += 1;
    }
    proof {
        record@.index_of_first_ensures(OPTION_KEY_END);
    }
    if i == record.len() {
        assert(!record@.contains(OPTION_KEY_END));
        return None;
    }
    assert(record@[i as int] == OPTION_KEY_END);
    assert(record@.contains(OPTION_KEY_END));
    assert(record@.index_of_first(OPTION_KEY_END) == Some(i as int));
    let key_bytes = &record[0..i];
    let value_bytes = &record[i + 1..record.len()];
    assert(key_bytes@ =~= record@.take(i as int));
    assert(value_bytes@ =~= record@.skip(i + 1));
    match (string_from_utf8(key_bytes), string_from_utf8(value_bytes)) {
        (Some(key), Some(value)) => Some((key, value)),
        _ => None,
    }
}

/// Adds the entry of `record`, if it has one, to `entries`.
fn push_option_entry(entries: &mut Vec<(String, String)>, record: &[u8])
    ensures
        entry_views(final(entries)@) == match spec_option_entry(record@) {
            Some(e) => entry_views(old(entries)@).push(e),
            None => entry_views(old(entries)@),
        },
{
    match option_entry(record) {
        Some(e) => {
            let ghost before = entries@;
            let ghost ev = (e.0@, e.1@);
            entries.push(e);
            assert(entry_views(entries@) =~= entry_views(before).push(ev));
        },
        None => {},
    }
}

/// Reads the options that the page hands over: one entry per well-formed
/// record, in the order of the records.
pub fn parse_options(buf: &[u8]) -> (r: Vec<(String, String)>)
    ensures
        entry_views(r@) == spec_parse_options(buf@),
{
    let mut entries: Vec<(String, String)> = Vec::new();
    let mut start: usize = 0;
    let mut pos: usize = 0;
    let ghost mut done: Seq<Seq<u8>> = Seq::empty();
    assert(buf@.take(0) =~= Seq::<u8>::empty());
    assert(split_on(buf@.take(0), OPTION_RECORD_END) =~= done.push(buf@.subrange(0, 0)));
    assert(entry_views(entries@) =~= Seq::<(Seq<char>, Seq<char>)>::empty());
    while pos < buf.len()
        invariant
            0 <= start <= pos <= buf@.len(),
            split_on(buf@.take(pos as int), OPTION_RECORD_END) == done.push(
                buf@.subrange(start as int, pos as int),
            ),
            entry_views(entries@) == spec_option_entries(done),
        decreases buf@.len() - pos,
    {
        proof {
            lemma_split_on_step(buf@, OPTION_RECORD_END, start as int, pos as int, done);
        }
        if buf[pos] == OPTION_RECORD_END {
            let record = &buf[start..pos];
            let ghost prev = done;
            proof {
                done = done.push(record@);
                assert(done.drop_last() =~= prev);
            }
            push_option_entry(&mut entries, record);
            start = pos + 1;
        }
        pos += 1;
    }
    let record = &buf[start..pos];
    let ghost prev = done;
    proof {
        done = done.push(record@);
        assert(done.drop_last() =~= prev);
        assert(buf@.take(pos as int) =~= buf@);
    }
    push_option_entry(&mut entries, record);
    entries
}

} // verus!

verus! {

// ---------------------------------------------------------------------------
// Characters

/// Whether `c` has the Unicode property `White_Space`, which is what
/// `char::is_whitespace` and `str::trim` go by.
pub open spec fn is_unicode_white_space(c: char) -> bool {
    let n = c as u32;
    ||| 0x09 <= n <= 0x0D
    ||| n == 0x20
    ||| n == 0x85
    ||| n == 0xA0
    ||| n == 0x1680
    ||| 0x2000 <= n <= 0x200A
    ||| n == 0x2028
    ||| n == 0x2029
    ||| n == 0x202F
    ||| n == 0x205F
    ||| n == 0x3000
}

/// Whether `c` has the Unicode property `White_Space`.
pub fn char_is_white_space(c: char) -> (r: bool)
    ensures
        r == is_unicode_white_space(c),
{
    let n = c as u32;
    (0x09 <= n && n <= 0x0D) || n == 0x20 || n == 0x85 || n == 0xA0 || n == 0x1680 || (0x2000
        <= n && n <= 0x200A) || n == 0x2028 || n == 0x2029 || n == 0x202F || n == 0x205F || n
        == 0x3000
}

/// `s` without its leading white space.
pub open spec fn trim_start(s: Seq<char>) -> Seq<char>
    decreases s.len(),
{
    if s.len() > 0 && is_unicode_white_space(s[0]) {
        trim_start(s.drop_first())
    } else {
        s
    }
}

/// `s` without its trailing white space.
pub open spec fn trim_end(s: Seq<char>) -> Seq<char>
    decreases s.len(),
{
    if s.len() > 0 && is_unicode_white_space(s.last()) {
        trim_end(s.drop_last())
    } else {
        s
    }
}

/// `s` without leading and trailing white space, as `str::trim` gives it.
pub open spec fn spec_trim(s: Seq<char>) -> Seq<char> {
    trim_end(trim_start(s))
}

/// The part of `s` between its leading and its trailing white space.
pub fn trim_chars(s: &[char]) -> (r: &[char])
    ensures
        r@ == spec_trim(s@),
{
    let len = s.len();
    let mut lo: usize = 0;
    assert(s@.skip(0) =~= s@);
    while lo < len && char_is_white_space(s[lo])
        invariant
            len == s@.len(),
            0 <= lo <= len,
            trim_start(s@) == trim_start(s@.skip(lo as int)),
        decreases len - lo,
    {
        assert(s@.skip(lo as int).drop_first() =~= s@.skip(lo + 1));
        lo += 1;
    }
    assert(trim_start(s@.skip(lo as int)) == s@.skip(lo as int));
    let mut hi: usize = len;
    assert(s@.skip(lo as int) =~= s@.subrange(lo as int, len as int));
    while hi > lo && char_is_white_space(s[hi - 1])
        invariant
            len == s@.len(),
            lo <= hi <= len,
            trim_start(s@) == s@.subrange(lo as int, len as int),
            trim_end(s@.subrange(lo as int, len as int)) == trim_end(
                s@.subrange(lo as int, hi as int),
            ),
        decreases hi - lo,
    {
        assert(s@.subrange(lo as int, hi as int).drop_last() =~= s@.subrange(
            lo as int,
            hi - 1,
        ));
        hi -= 1;
    }
    let r = &s[lo..hi];
    assert(r@ =~= s@.subrange(lo as int, hi as int));
    r
}

/// Appends `items` to `out`.
fn push_all(out: &mut Vec<char>, items: &[char])
    ensures
        final(out)@ == old(out)@ + items@,
{
    let ghost before = out@;
    let mut i: usize = 0;
    while i < items.len()
        invariant
            0 <= i <= items@.len(),
            out@ == before + items@.take(i as int),
        decreases items@.len() - i,
    {
        out.push(items[i]);
        i += 1;
        assert(out@ =~= before + items@.take(i as int));
    }
    assert(items@.take(i as int) =~= items@);
}

// ---------------------------------------------------------------------------
// Demangling stack traces

/// What `rustc_demangle::demangle` gives for a symbol, written out with
/// `Display`: the demangled symbol, or the symbol itself where it does not
/// look like a mangled Rust symbol. It depends on the symbol alone.
pub uninterp spec fn demangled_symbol(mangled: Seq<char>) -> Seq<char>;

/// Calls `rustc_demangle::demangle` and writes the result out with `Display`
/// (`to_string`). Nothing is claimed of the text but that it is
/// `demangled_symbol` of the argument.
#[verifier::external_body]
fn demangle_symbol(mangled: &[char]) -> (r: Vec<char>)
    ensures
        r@ == demangled_symbol(mangled@),
{
    let mangled: String = mangled.iter().collect();
    rustc_demangle::demangle(&mangled).to_string().chars().collect()
}

/// The text that stands between a module's file name and a function's symbol
/// in a stack trace of the browser build.
pub open spec fn wasm_marker() -> Seq<char> {
    seq!['.', 'w', 'a', 's', 'm', '.']
}

/// Whether `c` ends a symbol in a stack-trace line.
pub open spec fn is_symbol_stop(c: char) -> bool {
    c == '(' || c == '@'
}

/// The length of the symbol at the start of `s`: up to the first `(` or `@`,
/// or all of `s`.
pub open spec fn symbol_end(s: Seq<char>) -> int
    decreases s.len(),
{
    if s.len() == 0 || is_symbol_stop(s[0]) {
        0
    } else {
        1 + symbol_end(s.drop_first())
    }
}

/// The length of the symbol at the start of `s`.
fn find_symbol_end(s: &[char]) -> (e: usize)
    ensures
        e == symbol_end(s@),
        e <= s@.len(),
{
    let len = s.len();
    let mut i: usize = 0;
    assert(s@.skip(0) =~= s@);
    while i < len && s[i] != '(' && s[i] != '@'
        invariant
            len == s@.len(),
            0 <= i <= len,
            symbol_end(s@) == i + symbol_end(s@.skip(i as int)),
        decreases len - i,
    {
        assert(s@.skip(i as int).drop_first() =~= s@.skip(i + 1));
        i += 1;
    }
    i
}

/// One line of a stack trace with its symbol demangled. A line names a
/// symbol when it holds the marker: the symbol follows the marker's first
/// occurrence and runs up to a `(` or `@`, without surrounding white space.
/// Other lines stay as they are.
pub open spec fn spec_demangle_line(line: Seq<char>) -> Seq<char> {
    match first_occurrence(line, wasm_marker()) {
        None => line,
        Some(p) => {
            let after = line.skip(p + 6);
            let e = symbol_end(after);
            line.take(p) + wasm_marker() + demangled_symbol(spec_trim(after.take(e)))
                + after.skip(e)
        },
    }
}

/// Appends the demangled `line` and a newline to `out`.
fn push_demangled_line(out: &mut Vec<char>, line: &[char])
    ensures
        final(out)@ == old(out)@ + spec_demangle_line(line@).push('\n'),
{
    let ghost before = out@;
    let marker = ['.', 'w', 'a', 's', 'm', '.'];
    assert(marker@ =~= wasm_marker());
    match find_pattern(line, marker.as_slice()) {
        Some(p) => {
            assert(occurs_at(line@, p as int, wasm_marker()));
            let len = line.len();
            let after = &line[p + 6..len];
            let e = find_symbol_end(after);
            let mangled = trim_chars(&after[0..e]);
            let demangled = demangle_symbol(mangled);
            proof {
                assert(after@ =~= line@.skip(p + 6));
                assert(after@.subrange(0, e as int) =~= after@.take(e as int));
                assert(line@.subrange(0, p + 6) =~= line@.take(p as int) + wasm_marker());
            }
            push_all(out, &line[0..p + 6]);
            push_all(out, demangled.as_slice());
            push_all(out, &after[e..after.len()]);
            out.push('\n');
            assert(after@.subrange(e as int, after@.len() as int) =~= after@.skip(e as int));
            assert(out@ =~= before + spec_demangle_line(line@).push('\n'));
        },
        None => {
            push_all(out, line);
            out.push('\n');
            assert(out@ =~= before + spec_demangle_line(line@).push('\n'));
        },
    }
}

/// `line` without one trailing carriage return.
pub open spec fn strip_cr(line: Seq<char>) -> Seq<char> {
    if line.len() > 0 && line.last() == '\r' {
        line.drop_last()
    } else {
        line
    }
}

/// The lines of `s` as `str::lines` yields them: split at `\n`, a `\r` just
/// before a `\n` dropped, and no empty line after a final `\n`.
pub open spec fn text_lines(s: Seq<char>) -> Seq<Seq<char>> {
    let pieces = split_on(s, '\n');
    let ended = pieces.drop_last().map_values(|l: Seq<char>| strip_cr(l));
    if pieces.last().len() == 0 {
        ended
    } else {
        ended.push(pieces.last())
    }
}

/// The demangled lines, each followed by a newline.
pub open spec fn spec_demangle_lines(lines: Seq<Seq<char>>) -> Seq<char>
    decreases lines.len(),
{
    if lines.len() == 0 {
        Seq::empty()
    } else {
        spec_demangle_lines(lines.drop_last()) + spec_demangle_line(lines.last()).push('\n')
    }
}

/// A stack trace with the symbols of its lines demangled.
pub open spec fn spec_demangle_multiline(s: Seq<char>) -> Seq<char> {
    spec_demangle_lines(text_lines(s))
}

/// `line` without one trailing carriage return.
fn strip_cr_chars(line: &[char]) -> (r: &[char])
    ensures
        r@ == strip_cr(line@),
{
    let len = line.len();
    if len > 0 && line[len - 1] == '\r' {
        let r = &line[0..len - 1];
        assert(r@ =~= line@.drop_last());
        r
    } else {
        line
    }
}

/// Demangles the symbols in the lines of a stack trace, given as characters.
pub fn demangle_stack_chars(s: &[char]) -> (r: Vec<char>)
    ensures
        r@ == spec_demangle_multiline(s@),
{
    let mut out: Vec<char> = Vec::new();
    let mut start: usize = 0;
    let mut pos: usize = 0;
    let ghost mut done: Seq<Seq<char>> = Seq::empty();
    assert(s@.take(0) =~= Seq::<char>::empty());
    assert(split_on(s@.take(0), '\n') =~= done.push(s@.subrange(0, 0)));
    assert(done.map_values(|l: Seq<char>| strip_cr(l)) =~= Seq::<Seq<char>>::empty());
    while pos < s.len()
        invariant
            0 <= start <= pos <= s@.len(),
            split_on(s@.take(pos as int), '\n') == done.push(s@.subrange(start as int, pos as int)),
            out@ == spec_demangle_lines(done.map_values(|l: Seq<char>| strip_cr(l))),
        decreases s@.len() - pos,
    {
        proof {
            lemma_split_on_step(s@, '\n', start as int, pos as int, done);
        }
        if s[pos] == '\n' {
            let piece = &s[start..pos];
            let line = strip_cr_chars(piece);
            let ghost prev = done;
            push_demangled_line(&mut out, line);
            proof {
                done = done.push(piece@);
                let lines = done.map_values(|l: Seq<char>| strip_cr(l));
                assert(lines =~= prev.map_values(|l: Seq<char>| strip_cr(l)).push(strip_cr(piece@)));
                assert(lines.drop_last() =~= prev.map_values(|l: Seq<char>| strip_cr(l)));
            }
            start = pos + 1;
        }
        pos += 1;
    }
    let last = &s[start..pos];
    proof {
        assert(s@.take(pos as int) =~= s@);
        assert(split_on(s@, '\n').drop_last() =~= done);
    }
    if last.len() > 0 {
        let ghost prev = out@;
        push_demangled_line(&mut out, last);
        proof {
            let lines = text_lines(s@);
            assert(lines.drop_last() =~= done.map_values(|l: Seq<char>| strip_cr(l)));
        }
    }
    out
}

/// Demangles the Rust symbols in the lines of a stack trace of the browser
/// build; every line of the result ends with a newline.
pub fn demangle_multiline(s: &str) -> (r: String)
    ensures
        r@ == spec_demangle_multiline(s@),
{
    let chars = str_chars(s);
    let out = demangle_stack_chars(chars.as_slice());
    string_from_chars(out.as_slice())
}

/// The part of `input` that fits into an output buffer of `max_out` bytes.
pub fn output_prefix(input: &[u8], max_out: usize) -> (r: &[u8])
    ensures
        r@ == input@.take(if input@.len() <= max_out { input@.len() as int } else { max_out as int }),
{
    let n = if input.len() <= max_out { input.len() } else { max_out };
    let r = &input[0..n];
    assert(r@ =~= input@.take(n as int));
    r
}

} // verus!
