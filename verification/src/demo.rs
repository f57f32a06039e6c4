//! Demo movies: recorded inputs, their text format, playing them back and
//! recording them.
//!
//! The text format is the header `penguindemo-text-v0` and a newline, then one
//! action per line: `at <update>: on <input>`, `at <update>: off <input>` or
//! `at <update>: look <degrees>`. Blank lines and `#` comments are ignored.
//!
//! Look angles are kept as the decimal text of the angle in degrees; whoever
//! turns the angle into a direction reads that text as a number.
use crate::input::{Input, InputSet};
use crate::level_parsing::append_bytes;
use crate::text_utils::{lemma_split_on_nonempty, split_on, split_while};
use vstd::prelude::*;
use vstd::utf8::*;

verus! {

// ---------------------------------------------------------------------------
// Bytes of the text format

pub open spec fn spec_movie_header() -> Seq<u8> {
    // "penguindemo-text-v0\n"
    seq![
        112u8, 101, 110, 103, 117, 105, 110, 100, 101, 109, 111, 45, 116, 101, 120, 116, 45, 118,
        48, 10,
    ]
}

pub open spec fn kw_at() -> Seq<u8> {
    seq![97u8, 116]
}

pub open spec fn kw_on() -> Seq<u8> {
    seq![111u8, 110]
}

pub open spec fn kw_off() -> Seq<u8> {
    seq![111u8, 102, 102]
}

pub open spec fn kw_look() -> Seq<u8> {
    seq![108u8, 111, 111, 107]
}

pub open spec fn kw_colon() -> Seq<u8> {
    seq![58u8]
}

pub open spec fn spec_input_name(input: Input) -> Seq<u8> {
    match input {
        Input::Left => seq![108u8, 101, 102, 116],
        Input::Right => seq![114u8, 105, 103, 104, 116],
        Input::Shoot => seq![115u8, 104, 111, 111, 116],
    }
}

pub const NEWLINE: u8 = 10;

pub const SPACE: u8 = 32;

pub const HASH: u8 = 35;

/// The header that every demo movie starts with.
pub fn movie_header() -> (r: Vec<u8>)
    ensures
        r@ == spec_movie_header(),
{
    let r: Vec<u8> = vec![
        112u8, 101, 110, 103, 117, 105, 110, 100, 101, 109, 111, 45, 116, 101, 120, 116, 45, 118,
        48, 10,
    ];
    assert(r@ =~= spec_movie_header());
    r
}

/// The name of `input` in the text format.
pub fn input_name(input: Input) -> (r: Vec<u8>)
    ensures
        r@ == spec_input_name(input),
{
    let r: Vec<u8> = match input {
        Input::Left => vec![108u8, 101, 102, 116],
        Input::Right => vec![114u8, 105, 103, 104, 116],
        Input::Shoot => vec![115u8, 104, 111, 111, 116],
    };
    assert(r@ =~= spec_input_name(input));
    r
}

// ---------------------------------------------------------------------------
// Lexical helpers

/// ASCII whitespace as `u8::is_ascii_whitespace` defines it.
pub open spec fn is_ascii_ws(b: u8) -> bool {
    b == 9 || b == 10 || b == 12 || b == 13 || b == 32
}

pub open spec fn is_ascii_digit(b: u8) -> bool {
    48 <= b <= 57
}

/// A byte that may appear in a look angle: a digit, `.`, `-` or `+`.
pub open spec fn is_number_char(b: u8) -> bool {
    is_ascii_digit(b) || b == 46 || b == 45 || b == 43
}

/// `s` without its leading ASCII whitespace.
pub open spec fn trim_start(s: Seq<u8>) -> Seq<u8>
    decreases s.len(),
{
    if s.len() > 0 && is_ascii_ws(s[0]) {
        trim_start(s.drop_first())
    } else {
        s
    }
}

/// `s` without its trailing ASCII whitespace.
pub open spec fn trim_end(s: Seq<u8>) -> Seq<u8>
    decreases s.len(),
{
    if s.len() > 0 && is_ascii_ws(s.last()) {
        trim_end(s.drop_last())
    } else {
        s
    }
}

/// `s` without leading and trailing ASCII whitespace.
pub open spec fn trim(s: Seq<u8>) -> Seq<u8> {
    trim_end(trim_start(s))
}

/// The rest of `s` after `keyword`, when `s` starts with it.
pub open spec fn spec_expect_keyword(s: Seq<u8>, keyword: Seq<u8>) -> Option<Seq<u8>> {
    if keyword.len() <= s.len() && s.take(keyword.len() as int) == keyword {
        Some(s.skip(keyword.len() as int))
    } else {
        None
    }
}

/// Number of leading bytes of `s` that satisfy `p`.
pub open spec fn prefix_len(s: Seq<u8>, p: spec_fn(u8) -> bool) -> nat
    decreases s.len(),
{
    if s.len() > 0 && p(s[0]) {
        1 + prefix_len(s.drop_first(), p)
    } else {
        0
    }
}

pub open spec fn digit_pred() -> spec_fn(u8) -> bool {
    |b: u8| is_ascii_digit(b)
}

pub open spec fn number_char_pred() -> spec_fn(u8) -> bool {
    |b: u8| is_number_char(b)
}

/// The value of a string of decimal digits.
pub open spec fn decimal_value(digits: Seq<u8>) -> nat
    decreases digits.len(),
{
    if digits.len() == 0 {
        0
    } else {
        decimal_value(digits.drop_last()) * 10 + (digits.last() - 48) as nat
    }
}

/// The decimal digits of `n`, without leading zeros.
pub open spec fn spec_decimal(n: u64) -> Seq<u8>
    decreases n,
{
    if n < 10 {
        seq![(48 + n) as u8]
    } else {
        spec_decimal(n / 10).push((48 + n % 10) as u8)
    }
}

/// A decimal number as Rust's `f32` parsing accepts it, for text made of digits,
/// `.`, `-` and `+`: an optional sign, then digits with at most one `.`, and at
/// least one digit.
pub open spec fn is_decimal_number(t: Seq<u8>) -> bool {
    let body = unsigned_part(t);
    &&& forall|i: int| 0 <= i < body.len() ==> is_ascii_digit(#[trigger] body[i]) || body[i] == 46
    &&& forall|i: int, j: int|
        0 <= i < j < body.len() && #[trigger] body[i] == 46 ==> #[trigger] body[j] != 46
    &&& exists|i: int| 0 <= i < body.len() && is_ascii_digit(#[trigger] body[i])
}

/// `t` without a leading `-` or `+`.
pub open spec fn unsigned_part(t: Seq<u8>) -> Seq<u8> {
    if t.len() > 0 && (t[0] == 45 || t[0] == 43) {
        t.drop_first()
    } else {
        t
    }
}

proof fn lemma_trim_start_len(s: Seq<u8>)
    ensures
        trim_start(s).len() <= s.len(),
    decreases s.len(),
{
    if s.len() > 0 {
        lemma_trim_start_len(s.drop_first());
    }
}

proof fn lemma_trim_end_len(s: Seq<u8>)
    ensures
        trim_end(s).len() <= s.len(),
    decreases s.len(),
{
    if s.len() > 0 {
        lemma_trim_end_len(s.drop_last());
    }
}

/// Removes leading ASCII whitespace.
pub fn trim_ascii_start(s: &[u8]) -> (r: &[u8])
    ensures
        r@ == trim_start(s@),
        r@.len() <= s@.len(),
{
    let mut i: usize = 0;
    assert(s@.skip(0) =~= s@);
    while i < s.len() && (s[i] == 9 || s[i] == 10 || s[i] == 12 || s[i] == 13 || s[i] == 32)
        invariant
            0 <= i <= s@.len(),
            trim_start(s@) == trim_start(s@.skip(i as int)),
        decreases s@.len() - i,
    {
        assert(s@.skip(i as int).drop_first() =~= s@.skip(i + 1));
        i += 1;
    }
    let r = &s[i..s.len()];
    assert(r@ =~= s@.skip(i as int));
    proof {
        lemma_trim_start_len(s@.skip(i as int));
    }
    r
}

/// Removes trailing ASCII whitespace.
pub fn trim_ascii_end(s: &[u8]) -> (r: &[u8])
    ensures
        r@ == trim_end(s@),
        r@.len() <= s@.len(),
{
    let mut n: usize = s.len();
    assert(s@.take(n as int) =~= s@);
    while n > 0 && (s[n - 1] == 9 || s[n - 1] == 10 || s[n - 1] == 12 || s[n - 1] == 13 || s[n
        - 1] == 32)
        invariant
            0 <= n <= s@.len(),
            trim_end(s@) == trim_end(s@.take(n as int)),
        decreases n,
    {
        assert(s@.take(n as int).drop_last() =~= s@.take(n - 1));
        n -= 1;
    }
    let r = &s[0..n];
    assert(r@ =~= s@.take(n as int));
    proof {
        lemma_trim_end_len(s@.take(n as int));
    }
    r
}

/// Removes leading and trailing ASCII whitespace.
pub fn trim_ascii(s: &[u8]) -> (r: &[u8])
    ensures
        r@ == trim(s@),
        r@.len() <= s@.len(),
{
    trim_ascii_end(trim_ascii_start(s))
}

/// The rest of `source` after `prefix`, when `source` starts with `prefix`.
pub fn expect_keyword<'a>(source: &'a [u8], prefix: &[u8]) -> (r: Option<&'a [u8]>)
    ensures
        match r {
            Some(rest) => spec_expect_keyword(source@, prefix@) == Some(rest@) && rest@.len()
                <= source@.len(),
            None => spec_expect_keyword(source@, prefix@) is None,
        },
{
    if crate::text_utils::starts_with(source, prefix) {
        let rest = &source[prefix.len()..source.len()];
        assert(rest@ =~= source@.skip(prefix@.len() as int));
        Some(rest)
    } else {
        None
    }
}

/// `prefix_len` for a split of `s` into a matching prefix and a rest that does
/// not start with a match.
pub proof fn lemma_prefix_len_split(a: Seq<u8>, b: Seq<u8>, p: spec_fn(u8) -> bool)
    requires
        forall|i: int| 0 <= i < a.len() ==> p(#[trigger] a[i]),
        b.len() > 0 ==> !p(b[0]),
    ensures
        prefix_len(a + b, p) == a.len(),
    decreases a.len(),
{
    if a.len() == 0 {
        assert(a + b =~= b);
    } else {
        assert((a + b).drop_first() =~= a.drop_first() + b);
        lemma_prefix_len_split(a.drop_first(), b, p);
    }
}

/// Whether `c` is an ASCII digit.
pub fn is_digit_byte(c: &u8) -> (m: bool)
    ensures
        m == is_ascii_digit(*c),
{
    48 <= *c && *c <= 57
}

/// Whether `c` is a digit, `.`, `-` or `+`.
pub fn is_number_byte(c: &u8) -> (m: bool)
    ensures
        m == is_number_char(*c),
{
    (48 <= *c && *c <= 57) || *c == 46 || *c == 45 || *c == 43
}

/// Splits off the longest prefix of ASCII digits.
fn split_digits(s: &[u8]) -> (r: (&[u8], &[u8]))
    ensures
        r.0@ == s@.take(prefix_len(s@, digit_pred()) as int),
        r.1@ == s@.skip(prefix_len(s@, digit_pred()) as int),
        prefix_len(s@, digit_pred()) <= s@.len(),
{
    let (a, b) = split_while(s, is_digit_byte);
    proof {
        lemma_prefix_len_split(a@, b@, digit_pred());
        lemma_prefix_len_le(s@, digit_pred());
        assert(s@.take(a@.len() as int) =~= a@);
        assert(s@.skip(a@.len() as int) =~= b@);
    }
    (a, b)
}

/// Splits off the longest prefix of digits, `.`, `-` and `+`.
fn split_number_chars(s: &[u8]) -> (r: (&[u8], &[u8]))
    ensures
        r.0@ == s@.take(prefix_len(s@, number_char_pred()) as int),
        r.1@ == s@.skip(prefix_len(s@, number_char_pred()) as int),
        prefix_len(s@, number_char_pred()) <= s@.len(),
{
    let (a, b) = split_while(s, is_number_byte);
    proof {
        lemma_prefix_len_split(a@, b@, number_char_pred());
        lemma_prefix_len_le(s@, number_char_pred());
        assert(s@.take(a@.len() as int) =~= a@);
        assert(s@.skip(a@.len() as int) =~= b@);
    }
    (a, b)
}

// ---------------------------------------------------------------------------
// Actions and errors

/// One recorded action. Look angles are the decimal text of the angle in degrees.
#[derive(Clone, Debug, PartialEq, Eq)]
pub enum DemoAction {
    InputOn(Input),
    InputOff(Input),
    SetLookAngle(Vec<u8>),
}

/// The mathematical value of a [`DemoAction`].
pub enum SpecDemoAction {
    InputOn(Input),
    InputOff(Input),
    SetLookAngle(Seq<u8>),
}

impl View for DemoAction {
    type V = SpecDemoAction;

    open spec fn view(&self) -> SpecDemoAction {
        match self {
            DemoAction::InputOn(i) => SpecDemoAction::InputOn(*i),
            DemoAction::InputOff(i) => SpecDemoAction::InputOff(*i),
            DemoAction::SetLookAngle(t) => SpecDemoAction::SetLookAngle(t@),
        }
    }
}

pub open spec fn action_views(v: Seq<(u64, DemoAction)>) -> Seq<(u64, SpecDemoAction)> {
    v.map_values(|p: (u64, DemoAction)| (p.0, p.1@))
}

#[derive(PartialEq, Eq, Debug, Clone)]
pub struct DemoParseError {
    pub lineno: usize,
    pub colno: usize,
    pub detail: DemoParseErrorDetail,
}

#[derive(PartialEq, Eq, Debug, Clone)]
pub enum DemoParseErrorDetail {
    InvalidHeader,
    InvalidSyntax(&'static str),
    UpdateNumberDecreased,
}

impl DemoParseError {
    pub fn lineno(&self) -> (r: usize)
        ensures
            r == self.lineno,
    {
        self.lineno
    }

    pub fn colno(&self) -> (r: usize)
        ensures
            r == self.colno,
    {
        self.colno
    }

    pub fn detail(&self) -> (r: &DemoParseErrorDetail)
        ensures
            *r == self.detail,
    {
        &self.detail
    }
}

/// Update numbers from this one on are refused as "too large".
pub const UPD_LIMIT: u64 = 4611686018427387903;

// ---------------------------------------------------------------------------
// Numbers

/// The last `k` digits of a digit string never weigh more than the whole string.
proof fn lemma_decimal_value_prefix(d: Seq<u8>, k: int)
    requires
        0 <= k <= d.len(),
        forall|i: int| 0 <= i < d.len() ==> is_ascii_digit(#[trigger] d[i]),
    ensures
        decimal_value(d.take(k)) <= decimal_value(d),
    decreases d.len(),
{
    if k < d.len() {
        assert(d.drop_last().take(k) =~= d.take(k));
        lemma_decimal_value_prefix(d.drop_last(), k);
    } else {
        assert(d.take(k) =~= d);
    }
}

/// Reads an update number from a non-empty string of digits, or `None` when it is
/// at least [`UPD_LIMIT`].
fn parse_update_number(digits: &[u8]) -> (r: Option<u64>)
    requires
        forall|i: int| 0 <= i < digits@.len() ==> is_ascii_digit(#[trigger] digits@[i]),
    ensures
        r is Some <==> decimal_value(digits@) < UPD_LIMIT,
        r matches Some(v) ==> v == decimal_value(digits@),
{
    let mut acc: u64 = 0;
    let mut i: usize = 0;
    assert(digits@.take(0) =~= Seq::<u8>::empty());
    while i < digits.len()
        invariant
            0 <= i <= digits@.len(),
            forall|j: int| 0 <= j < digits@.len() ==> is_ascii_digit(#[trigger] digits@[j]),
            acc == decimal_value(digits@.take(i as int)),
            acc < UPD_LIMIT,
        decreases digits@.len() - i,
    {
        let d = (digits[i] - 48) as u64;
        let next: u128 = acc as u128 * 10 + d as u128;
        proof {
            assert(digits@.take(i + 1).drop_last() =~= digits@.take(i as int));
        }
        if next >= UPD_LIMIT as u128 {
            proof {
                lemma_decimal_value_prefix(digits@, i + 1);
            }
            return None;
        }
        acc = next as u64;
        i += 1;
    }
    assert(digits@.take(i as int) =~= digits@);
    Some(acc)
}

/// The decimal digits of `n`, without leading zeros.
pub fn decimal(n: u64) -> (r: Vec<u8>)
    ensures
        r@ == spec_decimal(n),
    decreases n,
{
    if n < 10 {
        let r = vec![(48 + n) as u8];
        assert(r@ =~= spec_decimal(n));
        r
    } else {
        let mut r = decimal(n / 10);
        r.push((48 + n % 10) as u8);
        r
    }
}

/// Whether `t` is a decimal number that Rust's `f32` parsing accepts (see
/// [`is_decimal_number`]).
pub fn check_decimal_number(t: &[u8]) -> (r: bool)
    ensures
        r == is_decimal_number(t@),
{
    let start: usize = if t.len() > 0 && (t[0] == 45 || t[0] == 43) {
        1
    } else {
        0
    };
    let ghost body = unsigned_part(t@);
    assert(body =~= t@.skip(start as int));
    let mut seen_dot = false;
    let mut seen_digit = false;
    let mut i: usize = start;
    while i < t.len()
        invariant
            start <= i <= t@.len(),
            start <= 1,
            body == t@.skip(start as int),
            body == unsigned_part(t@),
            forall|k: int|
                0 <= k < i - start ==> is_ascii_digit(#[trigger] body[k]) || body[k] == 46,
            forall|k: int, l: int|
                0 <= k < l < i - start && #[trigger] body[k] == 46 ==> #[trigger] body[l] != 46,
            seen_dot <==> exists|k: int| 0 <= k < i - start && #[trigger] body[k] == 46,
            seen_digit <==> exists|k: int| 0 <= k < i - start && is_ascii_digit(#[trigger] body[k]),
        decreases t@.len() - i,
    {
        let c = t[i];
        assert(c == body[i - start]);
        if 48 <= c && c <= 57 {
            seen_digit = true;
        } else if c == 46 {
            if seen_dot {
                let ghost k = choose|k: int| 0 <= k < i - start && #[trigger] body[k] == 46;
                assert(body[k] == 46 && body[i - start] == 46);
                return false;
            }
            seen_dot = true;
        } else {
            assert(!(is_ascii_digit(body[i - start]) || body[i - start] == 46));
            return false;
        }
        i += 1;
    }
    seen_digit
}

// ---------------------------------------------------------------------------
// Lines

/// The keyword that starts an action.
#[derive(Clone, Copy, PartialEq, Eq, Structural)]
pub enum ActionKeyword {
    On,
    Off,
    Look,
}

/// The input named at the start of `line`, and the rest of the line.
pub open spec fn spec_parse_input(line: Seq<u8>) -> Option<(Seq<u8>, Input)> {
    match spec_expect_keyword(line, spec_input_name(Input::Left)) {
        Some(rest) => Some((rest, Input::Left)),
        None => match spec_expect_keyword(line, spec_input_name(Input::Right)) {
            Some(rest) => Some((rest, Input::Right)),
            None => match spec_expect_keyword(line, spec_input_name(Input::Shoot)) {
                Some(rest) => Some((rest, Input::Shoot)),
                None => None,
            },
        },
    }
}

/// What follows an action keyword: a space, then an input name (for `on` and
/// `off`) or a decimal number (for `look`).
pub open spec fn spec_parse_action_args(kw: ActionKeyword, line: Seq<u8>) -> Result<
    (Seq<u8>, SpecDemoAction),
    (Seq<u8>, DemoParseErrorDetail),
> {
    if !(line.len() > 0 && line[0] == SPACE) {
        Err((line, DemoParseErrorDetail::InvalidSyntax("Expected space after keyword")))
    } else {
        let line = trim_start(line);
        match kw {
            ActionKeyword::Look => {
                let n = prefix_len(line, number_char_pred());
                let numeric = line.take(n as int);
                let rest = line.skip(n as int);
                if n == 0 || !is_decimal_number(numeric) {
                    Err((rest, DemoParseErrorDetail::InvalidSyntax("expected decimal number")))
                } else {
                    Ok((rest, SpecDemoAction::SetLookAngle(numeric)))
                }
            },
            _ => match spec_parse_input(line) {
                None => Err(
                    (
                        line,
                        DemoParseErrorDetail::InvalidSyntax("expected 'left', 'right' or 'shoot'"),
                    ),
                ),
                Some((rest, input)) => Ok(
                    (
                        rest,
                        if kw == ActionKeyword::On {
                            SpecDemoAction::InputOn(input)
                        } else {
                            SpecDemoAction::InputOff(input)
                        },
                    ),
                ),
            },
        }
    }
}

/// An action at the start of `line` (already trimmed), and the rest of the line;
/// or the rest of the line where the problem is, and the problem.
pub open spec fn spec_parse_action(line: Seq<u8>) -> Result<
    (Seq<u8>, SpecDemoAction),
    (Seq<u8>, DemoParseErrorDetail),
> {
    match spec_expect_keyword(line, kw_on()) {
        Some(rest) => spec_parse_action_args(ActionKeyword::On, rest),
        None => match spec_expect_keyword(line, kw_off()) {
            Some(rest) => spec_parse_action_args(ActionKeyword::Off, rest),
            None => match spec_expect_keyword(line, kw_look()) {
                Some(rest) => spec_parse_action_args(ActionKeyword::Look, rest),
                None => Err(
                    (line, DemoParseErrorDetail::InvalidSyntax("expected 'on', 'off', or 'look'")),
                ),
            },
        },
    }
}

/// What one line of a movie holds.
pub enum SpecLineOutcome {
    /// A blank line or a comment.
    Skip,
    /// An action at an update number; the last part is the rest of the line from
    /// the update number on.
    Action(u64, SpecDemoAction, Seq<u8>),
    /// A problem; the first part is the rest of the line where it was found.
    Error(Seq<u8>, DemoParseErrorDetail),
}

/// One line of a movie: `at <update>: <action>`, optionally followed by a `#`
/// comment, with any ASCII whitespace around it; or a blank line or a comment.
pub open spec fn spec_parse_line(piece: Seq<u8>) -> SpecLineOutcome {
    let line = trim(piece);
    if line.len() == 0 || line[0] == HASH {
        SpecLineOutcome::Skip
    } else {
        match spec_expect_keyword(line, kw_at()) {
            None => SpecLineOutcome::Error(
                line,
                DemoParseErrorDetail::InvalidSyntax("Expected 'at' keyword"),
            ),
            Some(l1) => if !(l1.len() > 0 && l1[0] == SPACE) {
                SpecLineOutcome::Error(
                    l1,
                    DemoParseErrorDetail::InvalidSyntax("Expected space after 'at'"),
                )
            } else {
                let l2 = trim_start(l1);
                let n = prefix_len(l2, digit_pred());
                let digits = l2.take(n as int);
                let l3 = l2.skip(n as int);
                if n == 0 {
                    SpecLineOutcome::Error(
                        l3,
                        DemoParseErrorDetail::InvalidSyntax("expected decimal integer"),
                    )
                } else if decimal_value(digits) >= UPD_LIMIT {
                    SpecLineOutcome::Error(
                        l3,
                        DemoParseErrorDetail::InvalidSyntax("number is too large"),
                    )
                } else {
                    match spec_expect_keyword(l3, kw_colon()) {
                        None => SpecLineOutcome::Error(
                            l3,
                            DemoParseErrorDetail::InvalidSyntax("expected colon (:)"),
                        ),
                        Some(l4) => match spec_parse_action(trim_start(l4)) {
                            Err((rest, detail)) => SpecLineOutcome::Error(rest, detail),
                            Ok((l5, action)) => {
                                let l6 = trim_start(l5);
                                if l6.len() > 0 && l6[0] != HASH {
                                    SpecLineOutcome::Error(
                                        l6,
                                        DemoParseErrorDetail::InvalidSyntax(
                                            "unrecognized characters at the end of a line",
                                        ),
                                    )
                                } else {
                                    SpecLineOutcome::Action(decimal_value(digits) as u64, action, l2)
                                }
                            },
                        },
                    }
                }
            },
        }
    }
}

/// What [`parse_line`] found in one line.
pub enum LineResult<'a> {
    Skip,
    Action(u64, DemoAction, &'a [u8]),
    Error(&'a [u8], DemoParseErrorDetail),
}

impl<'a> View for LineResult<'a> {
    type V = SpecLineOutcome;

    open spec fn view(&self) -> SpecLineOutcome {
        match self {
            LineResult::Skip => SpecLineOutcome::Skip,
            LineResult::Action(upd, action, at) => SpecLineOutcome::Action(*upd, action@, at@),
            LineResult::Error(rest, detail) => SpecLineOutcome::Error(rest@, *detail),
        }
    }
}

/// The input named at the start of `line`, and the rest of the line.
pub fn try_parse_input(line: &[u8]) -> (r: Option<(&[u8], Input)>)
    ensures
        match r {
            Some((rest, input)) => spec_parse_input(line@) == Some((rest@, input)) && rest@.len()
                <= line@.len(),
            None => spec_parse_input(line@) is None,
        },
{
    if let Some(rest) = expect_keyword(line, input_name(Input::Left).as_slice()) {
        Some((rest, Input::Left))
    } else if let Some(rest) = expect_keyword(line, input_name(Input::Right).as_slice()) {
        Some((rest, Input::Right))
    } else if let Some(rest) = expect_keyword(line, input_name(Input::Shoot).as_slice()) {
        Some((rest, Input::Shoot))
    } else {
        None
    }
}

fn try_parse_action_args(kw: ActionKeyword, line: &[u8]) -> (r: Result<
    (&[u8], DemoAction),
    (&[u8], DemoParseErrorDetail),
>)
    ensures
        match r {
            Ok((rest, action)) => spec_parse_action_args(kw, line@) == Ok::<
                (Seq<u8>, SpecDemoAction),
                (Seq<u8>, DemoParseErrorDetail),
            >((rest@, action@)) && rest@.len() <= line@.len(),
            Err((rest, detail)) => spec_parse_action_args(kw, line@) == Err::<
                (Seq<u8>, SpecDemoAction),
                (Seq<u8>, DemoParseErrorDetail),
            >((rest@, detail)) && rest@.len() <= line@.len(),
        },
{
    if !(line.len() > 0 && line[0] == SPACE) {
        return Err((line, DemoParseErrorDetail::InvalidSyntax("Expected space after keyword")));
    }
    let line = trim_ascii_start(line);
    match kw {
        ActionKeyword::Look => {
            let (numeric, rest) = split_number_chars(line);
            if numeric.len() == 0 || !check_decimal_number(numeric) {
                return Err((rest, DemoParseErrorDetail::InvalidSyntax("expected decimal number")));
            }
            let angle = crate::level_parsing::slice_to_vec_u8(numeric);
            Ok((rest, DemoAction::SetLookAngle(angle)))
        },
        _ => match try_parse_input(line) {
            None => Err(
                (line, DemoParseErrorDetail::InvalidSyntax("expected 'left', 'right' or 'shoot'")),
            ),
            Some((rest, input)) => {
                let action = if kw == ActionKeyword::On {
                    DemoAction::InputOn(input)
                } else {
                    DemoAction::InputOff(input)
                };
                Ok((rest, action))
            },
        },
    }
}

/// An action at the start of `line` (already trimmed), and the rest of the line;
/// or the rest of the line where the problem is, and the problem.
fn try_parse_action(line: &[u8]) -> (r: Result<
    (&[u8], DemoAction),
    (&[u8], DemoParseErrorDetail),
>)
    ensures
        match r {
            Ok((rest, action)) => spec_parse_action(line@) == Ok::<
                (Seq<u8>, SpecDemoAction),
                (Seq<u8>, DemoParseErrorDetail),
            >((rest@, action@)) && rest@.len() <= line@.len(),
            Err((rest, detail)) => spec_parse_action(line@) == Err::<
                (Seq<u8>, SpecDemoAction),
                (Seq<u8>, DemoParseErrorDetail),
            >((rest@, detail)) && rest@.len() <= line@.len(),
        },
{
    let on: [u8; 2] = [111, 110];
    let off: [u8; 3] = [111, 102, 102];
    let look: [u8; 4] = [108, 111, 111, 107];
    assert(on@ =~= kw_on() && off@ =~= kw_off() && look@ =~= kw_look());
    if let Some(rest) = expect_keyword(line, on.as_slice()) {
        try_parse_action_args(ActionKeyword::On, rest)
    } else if let Some(rest) = expect_keyword(line, off.as_slice()) {
        try_parse_action_args(ActionKeyword::Off, rest)
    } else if let Some(rest) = expect_keyword(line, look.as_slice()) {
        try_parse_action_args(ActionKeyword::Look, rest)
    } else {
        Err((line, DemoParseErrorDetail::InvalidSyntax("expected 'on', 'off', or 'look'")))
    }
}

/// Parses one line of a movie (without its newline).
pub fn parse_line(piece: &[u8]) -> (r: LineResult)
    ensures
        r@ == spec_parse_line(piece@),
        match r {
            LineResult::Error(rest, _) => rest@.len() <= trim(piece@).len(),
            LineResult::Action(_, _, at) => at@.len() <= trim(piece@).len(),
            LineResult::Skip => true,
        },
{
    let line = trim_ascii(piece);
    if line.len() == 0 || line[0] == HASH {
        return LineResult::Skip;
    }
    let at: [u8; 2] = [97, 116];
    let colon: [u8; 1] = [58];
    assert(at@ =~= kw_at() && colon@ =~= kw_colon());
    let l1 = match expect_keyword(line, at.as_slice()) {
        Some(l) => l,
        None => return LineResult::Error(
            line,
            DemoParseErrorDetail::InvalidSyntax("Expected 'at' keyword"),
        ),
    };
    if !(l1.len() > 0 && l1[0] == SPACE) {
        return LineResult::Error(l1, DemoParseErrorDetail::InvalidSyntax("Expected space after 'at'"));
    }
    let l2 = trim_ascii_start(l1);
    let (digits, l3) = split_digits(l2);
    if digits.len() == 0 {
        return LineResult::Error(l3, DemoParseErrorDetail::InvalidSyntax("expected decimal integer"));
    }
    proof {
        let n = prefix_len(l2@, digit_pred());
        assert forall|i: int| 0 <= i < digits@.len() implies is_ascii_digit(#[trigger] digits@[i]) by {
            lemma_prefix_len_all(l2@, digit_pred(), i);
        }
    }
    let upd = match parse_update_number(digits) {
        Some(v) => v,
        None => return LineResult::Error(l3, DemoParseErrorDetail::InvalidSyntax("number is too large")),
    };
    let l4 = match expect_keyword(l3, colon.as_slice()) {
        Some(l) => l,
        None => return LineResult::Error(l3, DemoParseErrorDetail::InvalidSyntax("expected colon (:)")),
    };
    let (l5, action) = match try_parse_action(trim_ascii_start(l4)) {
        Ok(t) => t,
        Err((rest, detail)) => return LineResult::Error(rest, detail),
    };
    let l6 = trim_ascii_start(l5);
    if l6.len() > 0 && l6[0] != HASH {
        return LineResult::Error(
            l6,
            DemoParseErrorDetail::InvalidSyntax("unrecognized characters at the end of a line"),
        );
    }
    LineResult::Action(upd, action, l2)
}

/// The first `prefix_len(s, p)` bytes of `s` all satisfy `p`.
proof fn lemma_prefix_len_all(s: Seq<u8>, p: spec_fn(u8) -> bool, i: int)
    requires
        0 <= i < prefix_len(s, p),
    ensures
        p(s[i]),
        prefix_len(s, p) <= s.len(),
    decreases s.len(),
{
    if i > 0 {
        lemma_prefix_len_all(s.drop_first(), p, i - 1);
    }
    lemma_prefix_len_le(s, p);
}

proof fn lemma_prefix_len_le(s: Seq<u8>, p: spec_fn(u8) -> bool)
    ensures
        prefix_len(s, p) <= s.len(),
    decreases s.len(),
{
    if s.len() > 0 {
        lemma_prefix_len_le(s.drop_first(), p);
    }
}

// ---------------------------------------------------------------------------
// Movies

/// Whether the update numbers of `actions` never decrease.
pub open spec fn actions_sorted(actions: Seq<(u64, SpecDemoAction)>) -> bool {
    forall|i: int, j: int| 0 <= i <= j < actions.len() ==> actions[i].0 <= actions[j].0
}

/// The actions of a movie made by [`DemoMovie::new`] of `actions`: those
/// actions, or `at 0: look 0` where there are none.
pub open spec fn movie_of(actions: Seq<(u64, SpecDemoAction)>) -> Seq<(u64, SpecDemoAction)> {
    if actions.len() == 0 {
        seq![(0u64, SpecDemoAction::SetLookAngle(initial_look()))]
    } else {
        actions
    }
}

/// A recorded sequence of actions, each at an update number; the update numbers
/// never decrease.
#[derive(PartialEq, Debug)]
pub struct DemoMovie {
    actions: Vec<(u64, DemoAction)>,
}

impl View for DemoMovie {
    type V = Seq<(u64, SpecDemoAction)>;

    closed spec fn view(&self) -> Seq<(u64, SpecDemoAction)> {
        action_views(self.actions@)
    }
}

impl Default for DemoMovie {
    /// A movie without actions.
    fn default() -> (m: DemoMovie)
        ensures
            m@ == Seq::<(u64, SpecDemoAction)>::empty(),
    {
        let m = DemoMovie { actions: Vec::new() };
        assert(m@ =~= Seq::<(u64, SpecDemoAction)>::empty());
        m
    }
}

impl DemoMovie {
    #[verifier::type_invariant]
    closed spec fn inv(self) -> bool {
        actions_sorted(action_views(self.actions@))
    }

    /// A movie of `actions`, whose update numbers must never decrease. A movie
    /// made of no actions gets one action: `at 0: look 0`.
    pub fn new(actions: Vec<(u64, DemoAction)>) -> (m: DemoMovie)
        requires
            actions_sorted(action_views(actions@)),
        ensures
            m@ == movie_of(action_views(actions@)),
    {
        let mut actions = actions;
        if actions.len() == 0 {
            let look: Vec<u8> = vec![48u8];
            assert(look@ =~= initial_look());
            actions.push((0, DemoAction::SetLookAngle(look)));
            assert(action_views(actions@) =~= movie_of(Seq::empty()));
        }
        DemoMovie::from_sorted(actions)
    }

    /// A movie of exactly `actions`, whose update numbers must never decrease.
    fn from_sorted(actions: Vec<(u64, DemoAction)>) -> (m: DemoMovie)
        requires
            actions_sorted(action_views(actions@)),
        ensures
            m@ == action_views(actions@),
    {
        DemoMovie { actions }
    }

    /// Last known update number recorded in the movie.
    pub fn last_update(&self) -> (r: Option<u64>)
        ensures
            r == if self@.len() == 0 {
                None::<u64>
            } else {
                Some(self@.last().0)
            },
    {
        let n = self.actions.len();
        if n == 0 {
            None
        } else {
            Some(self.actions[n - 1].0)
        }
    }

    /// The actions of the movie.
    pub fn actions(&self) -> (r: &Vec<(u64, DemoAction)>)
        ensures
            action_views(r@) == self@,
            actions_sorted(self@),
    {
        proof {
            use_type_invariant(self);
        }
        &self.actions
    }
}

/// The pieces of `s` between newlines, as `<[u8]>::split` yields them: one more
/// piece than there are newlines.
pub open spec fn split_lines(s: Seq<u8>) -> Seq<Seq<u8>> {
    split_on(s, NEWLINE)
}

pub proof fn lemma_split_lines_nonempty(s: Seq<u8>)
    ensures
        split_lines(s).len() >= 1,
{
    lemma_split_on_nonempty(s, NEWLINE);
}

/// The update number of the last action, or 0 when there is none.
pub open spec fn last_upd(actions: Seq<(u64, SpecDemoAction)>) -> u64 {
    if actions.len() == 0 {
        0
    } else {
        actions.last().0
    }
}

/// The 1-based column, in the line `piece`, at which the last `rest_len`
/// bytes of the trimmed line begin.
pub open spec fn spec_column(piece: Seq<u8>, rest_len: int) -> int {
    1 + (piece.len() - trim_start(piece).len()) + (trim(piece).len() - rest_len)
}

/// The column at which the last `rest_len` bytes of the trimmed `piece` begin.
fn column_of(piece: &[u8], rest_len: usize) -> (r: usize)
    requires
        rest_len <= trim(piece@).len(),
        piece@.len() < usize::MAX,
    ensures
        r == spec_column(piece@, rest_len as int),
{
    let started = trim_ascii_start(piece);
    let trimmed = trim_ascii_end(started);
    1 + (piece.len() - started.len()) + (trimmed.len() - rest_len)
}

/// The error for line number `lineno`, whose text is `piece`, found where `rest`
/// remains of the trimmed line.
pub open spec fn line_error(
    lineno: int,
    piece: Seq<u8>,
    rest: Seq<u8>,
    detail: DemoParseErrorDetail,
) -> DemoParseError {
    DemoParseError {
        lineno: lineno as usize,
        colno: spec_column(piece, rest.len() as int) as usize,
        detail,
    }
}

/// The actions on `lines`, which start at line 2 of the movie; or the first
/// problem. Update numbers must not decrease.
pub open spec fn spec_parse_lines(lines: Seq<Seq<u8>>) -> Result<
    Seq<(u64, SpecDemoAction)>,
    DemoParseError,
>
    decreases lines.len(),
{
    if lines.len() == 0 {
        Ok(Seq::empty())
    } else {
        match spec_parse_lines(lines.drop_last()) {
            Err(e) => Err(e),
            Ok(actions) => {
                let piece = lines.last();
                let lineno = lines.len() + 1int;
                match spec_parse_line(piece) {
                    SpecLineOutcome::Skip => Ok(actions),
                    SpecLineOutcome::Error(rest, detail) => Err(
                        line_error(lineno, piece, rest, detail),
                    ),
                    SpecLineOutcome::Action(upd, action, at) => if upd < last_upd(actions) {
                        Err(
                            line_error(
                                lineno,
                                piece,
                                at,
                                DemoParseErrorDetail::UpdateNumberDecreased,
                            ),
                        )
                    } else {
                        Ok(actions.push((upd, action)))
                    },
                }
            },
        }
    }
}

/// The movie that `source` describes, or the first problem in it.
pub open spec fn spec_parse_movie(source: Seq<u8>) -> Result<
    Seq<(u64, SpecDemoAction)>,
    DemoParseError,
> {
    match spec_expect_keyword(source, spec_movie_header()) {
        None => Err(
            DemoParseError { lineno: 1, colno: 1, detail: DemoParseErrorDetail::InvalidHeader },
        ),
        Some(rest) => spec_parse_lines(split_lines(rest)),
    }
}

/// Parsed actions are always sorted.
proof fn lemma_parse_lines_sorted(lines: Seq<Seq<u8>>)
    ensures
        spec_parse_lines(lines) matches Ok(actions) ==> actions_sorted(actions),
    decreases lines.len(),
{
    if lines.len() > 0 {
        lemma_parse_lines_sorted(lines.drop_last());
    }
}

/// Parses a demo movie in the text format.
pub fn parse_movie(source: &[u8]) -> (r: Result<DemoMovie, DemoParseError>)
    requires
        source@.len() < usize::MAX - 2,
    ensures
        match r {
            Ok(movie) => spec_parse_movie(source@) == Ok::<
                Seq<(u64, SpecDemoAction)>,
                DemoParseError,
            >(movie@),
            Err(e) => spec_parse_movie(source@) == Err::<Seq<(u64, SpecDemoAction)>, DemoParseError>(
                e,
            ),
        },
{
    let header = movie_header();
    let src = match expect_keyword(source, header.as_slice()) {
        Some(rest) => rest,
        None => {
            return Err(
                DemoParseError { lineno: 1, colno: 1, detail: DemoParseErrorDetail::InvalidHeader },
            );
        },
    };
    let mut lineno: usize = 1;
    let mut actions: Vec<(u64, DemoAction)> = Vec::new();
    let mut last: u64 = 0;
    let mut start: usize = 0;
    let mut pos: usize = 0;
    let ghost mut done: Seq<Seq<u8>> = Seq::empty();
    assert(src@.take(0) =~= Seq::<u8>::empty());
    assert(split_lines(src@.take(0)) =~= done.push(src@.subrange(0, 0)));
    assert(action_views(actions@) =~= Seq::<(u64, SpecDemoAction)>::empty());
    loop
        invariant
            spec_expect_keyword(source@, spec_movie_header()) == Some(src@),
            src@.len() < usize::MAX - 2,
            0 <= start <= pos <= src@.len(),
            split_lines(src@.take(pos as int)) == done.push(src@.subrange(start as int, pos as int)),
            done.len() <= pos,
            lineno == done.len() + 1,
            spec_parse_lines(done) == Ok::<Seq<(u64, SpecDemoAction)>, DemoParseError>(
                action_views(actions@),
            ),
            last == last_upd(action_views(actions@)),
        decreases src@.len() - pos,
    {
        if pos == src.len() || src[pos] == NEWLINE {
            let piece = &src[start..pos];
            assert(piece@.len() <= src@.len());
            let ghost prev_done = done;
            proof {
                done = done.push(piece@);
            }
            lineno += 1;
            assert(done.drop_last() =~= prev_done);
            match parse_line(piece) {
                LineResult::Skip => {},
                LineResult::Error(rest, detail) => {
                    proof {
                        lemma_parse_lines_final(src@, pos as int, prev_done, piece@);
                    }
                    return Err(
                        DemoParseError {
                            lineno,
                            colno: column_of(piece, rest.len()),
                            detail,
                        },
                    );
                },
                LineResult::Action(upd, action, at) => {
                    if upd < last {
                        proof {
                            lemma_parse_lines_final(src@, pos as int, prev_done, piece@);
                        }
                        return Err(
                            DemoParseError {
                                lineno,
                                colno: column_of(piece, at.len()),
                                detail: DemoParseErrorDetail::UpdateNumberDecreased,
                            },
                        );
                    }
                    last = upd;
                    let ghost old_actions = actions@;
                    let ghost av = action@;
                    actions.push((upd, action));
                    assert(action_views(actions@) =~= action_views(old_actions).push((upd, av)));
                },
            }
            if pos == src.len() {
                proof {
                    assert(src@.take(pos as int) =~= src@);
                    lemma_parse_lines_sorted(done);
                }
                return Ok(DemoMovie::from_sorted(actions));
            }
            proof {
                assert(src@.take(pos + 1).drop_last() =~= src@.take(pos as int));
                assert(src@.subrange(pos + 1, pos + 1) =~= Seq::<u8>::empty());
                assert(src@.take(pos + 1).last() == NEWLINE);
                assert(split_lines(src@.take(pos + 1)) =~= done.push(
                    src@.subrange(pos + 1, pos + 1),
                ));
            }
            start = pos + 1;
        } else {
            proof {
                assert(src@.take(pos + 1).drop_last() =~= src@.take(pos as int));
                assert(src@.subrange(start as int, pos + 1) =~= src@.subrange(
                    start as int,
                    pos as int,
                ).push(src@[pos as int]));
                assert(split_lines(src@.take(pos + 1)) =~= done.push(
                    src@.subrange(start as int, pos + 1),
                ));
            }
        }
        pos += 1;
    }
}

/// Once the parse of a line fails, the whole movie fails with it: the lines
/// after it are not consulted.
proof fn lemma_parse_lines_final(src: Seq<u8>, pos: int, done: Seq<Seq<u8>>, piece: Seq<u8>)
    requires
        0 <= pos <= src.len(),
        spec_parse_lines(done.push(piece)) is Err,
        split_lines(src.take(pos)) == done.push(piece),
        pos < src.len() ==> src[pos] == NEWLINE,
    ensures
        spec_parse_lines(split_lines(src)) == spec_parse_lines(done.push(piece)),
{
    if pos < src.len() {
        lemma_split_prefix(src, pos, src.len() as int);
        assert(src.take(src.len() as int) =~= src);
        lemma_parse_lines_err_prefix(done.push(piece), split_lines(src));
    } else {
        assert(src.take(pos) =~= src);
    }
}

/// The pieces before a newline at `k` stay the first pieces of any longer prefix.
proof fn lemma_split_prefix(s: Seq<u8>, k: int, m: int)
    requires
        0 <= k < m <= s.len(),
        s[k] == NEWLINE,
    ensures
        split_lines(s.take(m)).len() > split_lines(s.take(k)).len(),
        forall|i: int|
            0 <= i < split_lines(s.take(k)).len() ==> split_lines(s.take(m))[i] == split_lines(
                s.take(k),
            )[i],
    decreases m - k,
{
    assert(s.take(m).drop_last() =~= s.take(m - 1));
    lemma_split_lines_nonempty(s.take(m - 1));
    if m > k + 1 {
        lemma_split_prefix(s, k, m - 1);
    }
}

/// When the lines of a prefix fail to parse, any longer sequence of lines fails
/// in the same way.
proof fn lemma_parse_lines_err_prefix(p: Seq<Seq<u8>>, q: Seq<Seq<u8>>)
    requires
        spec_parse_lines(p) is Err,
        p.len() <= q.len(),
        forall|i: int| 0 <= i < p.len() ==> q[i] == p[i],
    ensures
        spec_parse_lines(q) == spec_parse_lines(p),
    decreases q.len(),
{
    if q.len() == p.len() {
        assert(q =~= p);
    } else {
        lemma_parse_lines_err_prefix(p, q.drop_last());
    }
}

// ---------------------------------------------------------------------------
// Writing movies

/// The text of an action: `on <input>`, `off <input>` or `look <degrees>`.
pub open spec fn spec_action_text(action: SpecDemoAction) -> Seq<u8> {
    match action {
        SpecDemoAction::InputOn(input) => kw_on() + seq![SPACE] + spec_input_name(input),
        SpecDemoAction::InputOff(input) => kw_off() + seq![SPACE] + spec_input_name(input),
        SpecDemoAction::SetLookAngle(degrees) => kw_look() + seq![SPACE] + degrees,
    }
}

/// The line of an action at update `upd`, without its newline: `at <upd>: <action>`.
pub open spec fn spec_action_line(upd: u64, action: SpecDemoAction) -> Seq<u8> {
    kw_at() + seq![SPACE] + spec_decimal(upd) + kw_colon() + seq![SPACE] + spec_action_text(
        action,
    )
}

/// The lines of `actions`, each followed by a newline.
pub open spec fn spec_unparse_actions(actions: Seq<(u64, SpecDemoAction)>) -> Seq<u8>
    decreases actions.len(),
{
    if actions.len() == 0 {
        Seq::empty()
    } else {
        spec_unparse_actions(actions.drop_last()) + spec_action_line(
            actions.last().0,
            actions.last().1,
        ) + seq![NEWLINE]
    }
}

/// A movie in the text format: the header, then one line per action.
pub open spec fn spec_unparse_movie(actions: Seq<(u64, SpecDemoAction)>) -> Seq<u8> {
    spec_movie_header() + spec_unparse_actions(actions)
}

/// The text of an action.
fn action_text(action: &DemoAction) -> (r: Vec<u8>)
    ensures
        r@ == spec_action_text(action@),
{
    let mut buf: Vec<u8> = Vec::new();
    match action {
        DemoAction::InputOn(input) => {
            append_bytes(&mut buf, [111u8, 110, SPACE].as_slice());
            append_bytes(&mut buf, input_name(*input).as_slice());
        },
        DemoAction::InputOff(input) => {
            append_bytes(&mut buf, [111u8, 102, 102, SPACE].as_slice());
            append_bytes(&mut buf, input_name(*input).as_slice());
        },
        DemoAction::SetLookAngle(degrees) => {
            append_bytes(&mut buf, [108u8, 111, 111, 107, SPACE].as_slice());
            append_bytes(&mut buf, degrees.as_slice());
        },
    }
    assert(buf@ =~= spec_action_text(action@));
    buf
}

/// The line of an action at update `upd`, with its newline.
fn action_line(upd: u64, action: &DemoAction) -> (r: Vec<u8>)
    ensures
        r@ == spec_action_line(upd, action@) + seq![NEWLINE],
{
    let mut buf: Vec<u8> = Vec::new();
    append_bytes(&mut buf, [97u8, 116, SPACE].as_slice());
    append_bytes(&mut buf, decimal(upd).as_slice());
    append_bytes(&mut buf, [58u8, SPACE].as_slice());
    append_bytes(&mut buf, action_text(action).as_slice());
    append_bytes(&mut buf, [NEWLINE].as_slice());
    assert(buf@ =~= spec_action_line(upd, action@) + seq![NEWLINE]);
    buf
}

/// Writes a movie in the text format.
pub fn unparse_movie(movie: &DemoMovie) -> (r: Vec<u8>)
    ensures
        r@ == spec_unparse_movie(movie@),
{
    let actions = movie.actions();
    let mut buf = movie_header();
    let mut i: usize = 0;
    let ghost views = action_views(actions@);
    assert(views.take(0) =~= Seq::<(u64, SpecDemoAction)>::empty());
    while i < actions.len()
        invariant
            0 <= i <= actions@.len(),
            views == action_views(actions@),
            buf@ == spec_movie_header() + spec_unparse_actions(views.take(i as int)),
        decreases actions@.len() - i,
    {
        let (upd, action) = &actions[i];
        let ghost before = buf@;
        let line = action_line(*upd, action);
        append_bytes(&mut buf, line.as_slice());
        proof {
            assert(views[i as int] == (*upd, action@));
            assert(views.take(i + 1).drop_last() =~= views.take(i as int));
        }
        i += 1;
    }
    assert(views.take(i as int) =~= views);
    buf
}

/// Writes a movie in the text format, as a string; the movie must write as
/// UTF-8 (it does when its look angles do).
pub fn unparse_movie_to_string(movie: &DemoMovie) -> (r: String)
    requires
        valid_utf8(spec_unparse_movie(movie@)),
    ensures
        r@ == decode_utf8(spec_unparse_movie(movie@)),
{
    let bytes = unparse_movie(movie);
    match crate::text_utils::string_from_utf8(bytes.as_slice()) {
        Some(s) => s,
        None => {
            assert(false);
            String::new()
        },
    }
}

// ---------------------------------------------------------------------------
// Playing a movie back

/// The look angle before any `look` action: zero degrees.
pub open spec fn initial_look() -> Seq<u8> {
    seq![48u8]
}

/// The held inputs and the look angle after an action.
pub open spec fn apply_action(state: (Set<Input>, Seq<u8>), action: SpecDemoAction) -> (
    Set<Input>,
    Seq<u8>,
) {
    match action {
        SpecDemoAction::InputOn(input) => (state.0.insert(input), state.1),
        SpecDemoAction::InputOff(input) => (state.0.remove(input), state.1),
        SpecDemoAction::SetLookAngle(degrees) => (state.0, degrees),
    }
}

/// The held inputs and the look angle after all of `actions`, starting from no
/// input held and a zero look angle.
pub open spec fn replay(actions: Seq<(u64, SpecDemoAction)>) -> (Set<Input>, Seq<u8>)
    decreases actions.len(),
{
    if actions.len() == 0 {
        (Set::empty(), initial_look())
    } else {
        apply_action(replay(actions.drop_last()), actions.last().1)
    }
}

/// The index of the first action at or after `k` whose update number is not `upd`.
pub open spec fn end_of_update(actions: Seq<(u64, SpecDemoAction)>, k: int, upd: u64) -> int
    decreases actions.len() - k,
{
    if k < 0 || k >= actions.len() || actions[k].0 != upd {
        k
    } else {
        end_of_update(actions, k + 1, upd)
    }
}

/// How far playback has got (actions played, update number) after one more
/// update from `played` actions at update `upd`: the actions at that update
/// are played and the update number moves on; once every action has been
/// played, nothing changes any more.
pub open spec fn playback_step(actions: Seq<(u64, SpecDemoAction)>, played: int, upd: u64) -> (
    int,
    u64,
) {
    if played >= actions.len() {
        (played, upd)
    } else {
        let end = end_of_update(actions, played, upd);
        (end, if end < actions.len() {
            (upd + 1) as u64
        } else {
            upd
        })
    }
}

/// How far playback has got after `k` updates from the start.
pub open spec fn playback_after(actions: Seq<(u64, SpecDemoAction)>, k: nat) -> (int, u64)
    decreases k,
{
    if k == 0 {
        (0, 0)
    } else {
        let prev = playback_after(actions, (k - 1) as nat);
        playback_step(actions, prev.0, prev.1)
    }
}

/// The number of actions at updates up to `upd`, for sorted `actions`.
pub open spec fn count_through(actions: Seq<(u64, SpecDemoAction)>, upd: int) -> nat
    decreases actions.len(),
{
    if actions.len() == 0 {
        0
    } else if actions.last().0 <= upd {
        actions.len()
    } else {
        count_through(actions.drop_last(), upd)
    }
}

/// The held inputs after the actions at updates up to `upd`, from update
/// `first` on, are those of `history` (one entry per update).
pub open spec fn history_matches(
    actions: Seq<(u64, SpecDemoAction)>,
    first: int,
    history: Seq<Set<Input>>,
) -> bool {
    forall|j: int|
        0 <= j < history.len() ==> replay(actions.take(count_through(actions, first + j) as int)).0
            == #[trigger] history[j]
}

pub proof fn lemma_count_through_le(actions: Seq<(u64, SpecDemoAction)>, upd: int)
    ensures
        count_through(actions, upd) <= actions.len(),
    decreases actions.len(),
{
    if actions.len() > 0 {
        lemma_count_through_le(actions.drop_last(), upd);
    }
}

/// An action after every recorded update leaves the history as it was.
pub proof fn lemma_history_push(
    actions: Seq<(u64, SpecDemoAction)>,
    x: (u64, SpecDemoAction),
    first: int,
    history: Seq<Set<Input>>,
)
    requires
        history_matches(actions, first, history),
        x.0 >= first + history.len(),
    ensures
        history_matches(actions.push(x), first, history),
{
    let pushed = actions.push(x);
    assert(pushed.drop_last() =~= actions);
    assert forall|j: int| 0 <= j < history.len() implies replay(
        pushed.take(count_through(pushed, first + j) as int),
    ).0 == #[trigger] history[j] by {
        lemma_count_through_le(actions, first + j);
        let c = count_through(actions, first + j);
        assert(count_through(pushed, first + j) == c);
        assert(pushed.take(c as int) =~= actions.take(c as int));
    }
}

/// All actions are at updates up to `upd` when the last one is.
pub proof fn lemma_count_through_all(actions: Seq<(u64, SpecDemoAction)>, upd: int)
    requires
        forall|i: int| 0 <= i < actions.len() ==> #[trigger] actions[i].0 <= upd,
    ensures
        count_through(actions, upd) == actions.len(),
{
    if actions.len() > 0 {
        assert(actions[actions.len() - 1].0 <= upd);
    }
}

/// In sorted actions, when the first `k` are at updates up to `upd` and the next
/// one is after it, `k` actions are at updates up to `upd`.
pub proof fn lemma_count_split(actions: Seq<(u64, SpecDemoAction)>, k: int, upd: int)
    requires
        actions_sorted(actions),
        0 <= k <= actions.len(),
        forall|i: int| 0 <= i < k ==> #[trigger] actions[i].0 <= upd,
        k < actions.len() ==> actions[k].0 > upd,
    ensures
        count_through(actions, upd) == k,
    decreases actions.len(),
{
    if actions.len() > 0 {
        if k == actions.len() {
            assert(actions[actions.len() - 1].0 <= upd);
        } else {
            let prev = actions.drop_last();
            assert(actions[k].0 <= actions[actions.len() - 1].0);
            assert forall|i: int, j: int| 0 <= i <= j < prev.len() implies prev[i].0
                <= prev[j].0 by {
                assert(prev[i] == actions[i] && prev[j] == actions[j]);
            }
            assert forall|i: int| 0 <= i < k implies #[trigger] prev[i].0 <= upd by {
                assert(prev[i] == actions[i]);
            }
            if k < prev.len() {
                assert(prev[k] == actions[k]);
            }
            lemma_count_split(prev, k, upd);
        }
    }
}

/// An input device that plays back a demo movie.
#[derive(Debug)]
pub struct DemoPlayback {
    upd: u64,
    movie: DemoMovie,
    action_index: usize,
    look_degrees: Vec<u8>,
    inputs: InputSet,
}

impl DemoPlayback {
    /// The state is the replay of the played actions, and the next action to play
    /// is not before the current update.
    pub closed spec fn wf(&self) -> bool {
        &&& self.action_index <= self.movie@.len()
        &&& (self.inputs@, self.look_degrees@) == replay(self.movie@.take(self.action_index as int))
        &&& self.action_index < self.movie@.len() ==> self.movie@[self.action_index as int].0
            >= self.upd
        &&& self.action_index < self.movie@.len() ==> forall|i: int|
            0 <= i < self.action_index ==> #[trigger] self.movie@[i].0 < self.upd
        &&& actions_sorted(self.movie@)
    }

    /// The movie being played.
    pub closed spec fn movie(&self) -> Seq<(u64, SpecDemoAction)> {
        self.movie@
    }

    /// The update number that the playback is at.
    pub closed spec fn update_number(&self) -> u64 {
        self.upd
    }

    /// How many actions of the movie have been played.
    pub closed spec fn played(&self) -> int {
        self.action_index as int
    }

    /// The inputs held down now.
    pub closed spec fn inputs(&self) -> Set<Input> {
        self.inputs@
    }

    /// The look angle now, as decimal text in degrees.
    pub closed spec fn look(&self) -> Seq<u8> {
        self.look_degrees@
    }

    /// Starts playing `movie` at update 0, with no input held and a zero look angle.
    pub fn new(movie: DemoMovie) -> (p: DemoPlayback)
        ensures
            p.movie() == movie@,
            p.update_number() == 0,
            p.played() == 0,
            p.inputs() == Set::<Input>::empty(),
            p.look() == initial_look(),
            p.wf(),
    {
        proof {
            use_type_invariant(&movie);
        }
        let look_degrees: Vec<u8> = vec![48u8];
        assert(look_degrees@ =~= initial_look());
        assert(movie@.take(0) =~= Seq::<(u64, SpecDemoAction)>::empty());
        DemoPlayback { movie, upd: 0, action_index: 0, look_degrees, inputs: InputSet::new() }
    }

    /// While a movie plays, the inputs held and the look angle are those that the
    /// movie's actions at earlier updates set.
    pub proof fn lemma_playback_state(p: DemoPlayback)
        requires
            p.wf(),
            p.played() < p.movie().len(),
        ensures
            (p.inputs(), p.look()) == replay(
                p.movie().take(count_through(p.movie(), p.update_number() - 1) as int),
            ),
    {
        lemma_count_split(p.movie(), p.played(), p.update_number() - 1);
    }

    /// Once every action has been played, the inputs held and the look angle are
    /// those that the whole movie sets.
    pub proof fn lemma_playback_finished(p: DemoPlayback)
        requires
            p.wf(),
            p.played() >= p.movie().len(),
        ensures
            (p.inputs(), p.look()) == replay(p.movie()),
    {
        assert(p.movie().take(p.played()) =~= p.movie());
    }

    /// A well-formed playback has played a prefix of a sorted movie, and holds
    /// the inputs and the look angle that this prefix sets.
    pub proof fn lemma_playback_wf(p: DemoPlayback)
        requires
            p.wf(),
        ensures
            actions_sorted(p.movie()),
            0 <= p.played() <= p.movie().len(),
            (p.inputs(), p.look()) == replay(p.movie().take(p.played())),
    {
    }

    /// Whether `input` is held down now.
    pub fn is_input_down(&self, input: Input) -> (r: bool)
        ensures
            r == self.inputs().contains(input),
    {
        self.inputs.contains(input)
    }

    /// The look angle now, as decimal text in degrees.
    pub fn look_angle_degrees(&self) -> (r: &[u8])
        ensures
            r@ == self.look(),
    {
        self.look_degrees.as_slice()
    }

    /// Plays the actions of the current update and moves to the next update.
    /// Once every action has been played, nothing changes any more.
    pub fn next_update(&mut self)
        requires
            old(self).wf(),
        ensures
            final(self).wf(),
            final(self).movie() == old(self).movie(),
            (final(self).played(), final(self).update_number()) == playback_step(
                old(self).movie(),
                old(self).played(),
                old(self).update_number(),
            ),
            0 <= final(self).played() <= final(self).movie().len(),
            (final(self).inputs(), final(self).look()) == replay(
                final(self).movie().take(final(self).played()),
            ),
            final(self).played() < final(self).movie().len() ==> final(self).movie()[final(self).played()].0 >= final(self).update_number(),
            old(self).played() >= old(self).movie().len() ==> *final(self) == *old(self),
            old(self).played() < old(self).movie().len() ==> {
                let end = end_of_update(
                    old(self).movie(),
                    old(self).played(),
                    old(self).update_number(),
                );
                &&& final(self).played() == end
                &&& final(self).update_number() == if end < old(self).movie().len() {
                    old(self).update_number() + 1
                } else {
                    old(self).update_number() as int
                }
            },
    {
        if self.action_index >= self.movie.actions().len() {
            return;
        }
        let ghost start = self.action_index as int;
        let ghost upd0 = self.upd;
        let ghost movie_view = self.movie@;
        loop
            invariant
                self.movie@ == movie_view,
                movie_view == old(self).movie@,
                start == old(self).action_index,
                upd0 == old(self).upd,
                start < movie_view.len(),
                self.upd == upd0,
                actions_sorted(movie_view),
                start <= self.action_index <= movie_view.len(),
                end_of_update(movie_view, start, upd0) == end_of_update(
                    movie_view,
                    self.action_index as int,
                    upd0,
                ),
                (self.inputs@, self.look_degrees@) == replay(
                    movie_view.take(self.action_index as int),
                ),
                self.action_index < movie_view.len() ==> movie_view[self.action_index as int].0
                    >= self.upd,
                forall|i: int| 0 <= i < start ==> #[trigger] movie_view[i].0 < self.upd,
                forall|i: int| start <= i < self.action_index ==> #[trigger] movie_view[i].0 == self.upd,
            decreases movie_view.len() - self.action_index,
        {
            let actions = self.movie.actions();
            if self.action_index >= actions.len() {
                return;
            }
            let upd = actions[self.action_index].0;
            if upd == self.upd {
                let action = &actions[self.action_index].1;
                let ghost k = self.action_index as int;
                assert(movie_view[k] == (upd, action@));
                match action {
                    DemoAction::InputOn(input) => self.inputs.insert(*input),
                    DemoAction::InputOff(input) => self.inputs.remove(*input),
                    DemoAction::SetLookAngle(degrees) => {
                        self.look_degrees = crate::level_parsing::slice_to_vec_u8(
                            degrees.as_slice(),
                        );
                    },
                }
                self.action_index = self.action_index + 1;
                proof {
                    assert(movie_view.take(k + 1).drop_last() =~= movie_view.take(k));
                    if k + 1 < movie_view.len() {
                        assert(movie_view[k].0 <= movie_view[k + 1].0);
                    }
                }
            } else {
                self.upd = self.upd + 1;
                return;
            }
        }
    }
}

// ---------------------------------------------------------------------------
// Recording a movie

/// The actions that are not look angles, in order.
pub open spec fn input_part(actions: Seq<(u64, SpecDemoAction)>) -> Seq<(u64, SpecDemoAction)>
    decreases actions.len(),
{
    if actions.len() == 0 {
        Seq::empty()
    } else {
        let init = input_part(actions.drop_last());
        if actions.last().1 is SetLookAngle {
            init
        } else {
            init.push(actions.last())
        }
    }
}

/// The inputs held at the last recorded update, or none before any.
pub open spec fn last_held(history: Seq<Set<Input>>) -> Set<Input> {
    if history.len() == 0 {
        Set::empty()
    } else {
        history.last()
    }
}

/// The input actions that record `history` from update `first` on: at each
/// update, `InputOn` for each input newly held, then `InputOff` for each input
/// released, each in input order.
pub open spec fn recorded_changes(first: int, history: Seq<Set<Input>>) -> Seq<
    (u64, SpecDemoAction),
>
    decreases history.len(),
{
    if history.len() == 0 {
        Seq::empty()
    } else {
        let prev = history.drop_last();
        let upd = (first + prev.len()) as u64;
        let held = last_held(prev);
        let now = history.last();
        recorded_changes(first, prev) + input_actions(upd, input_order(), now.difference(held), true)
            + input_actions(upd, input_order(), held.difference(now), false)
    }
}

/// Taking the look angles out of two runs of actions one after the other.
pub proof fn lemma_input_part_concat(a: Seq<(u64, SpecDemoAction)>, b: Seq<(u64, SpecDemoAction)>)
    ensures
        input_part(a + b) == input_part(a) + input_part(b),
    decreases b.len(),
{
    if b.len() == 0 {
        assert(a + b =~= a);
        assert(input_part(a) + input_part(b) =~= input_part(a));
    } else {
        lemma_input_part_concat(a, b.drop_last());
        assert((a + b).drop_last() =~= a + b.drop_last());
        assert((a + b).last() == b.last());
        assert(input_part(a) + input_part(b.drop_last()).push(b.last()) =~= (input_part(a)
            + input_part(b.drop_last())).push(b.last()));
    }
}

/// Input actions hold no look angle.
pub proof fn lemma_input_part_of_inputs(upd: u64, order: Seq<Input>, inputs: Set<Input>, on: bool)
    ensures
        input_part(input_actions(upd, order, inputs, on)) == input_actions(upd, order, inputs, on),
    decreases order.len(),
{
    if order.len() > 0 {
        lemma_input_part_of_inputs(upd, order.drop_last(), inputs, on);
        let prev = input_actions(upd, order.drop_last(), inputs, on);
        if inputs.contains(order.last()) {
            let a = input_actions(upd, order, inputs, on);
            assert(a.drop_last() =~= prev);
        }
    }
}

/// The order in which sets of inputs are walked.
pub open spec fn input_order() -> Seq<Input> {
    seq![Input::Left, Input::Right, Input::Shoot]
}

/// The position of `input` in [`input_order`].
pub open spec fn order_index(input: Input) -> int {
    match input {
        Input::Left => 0,
        Input::Right => 1,
        Input::Shoot => 2,
    }
}

/// `InputOn` (or `InputOff`) actions at `upd` for the inputs of `inputs`, in the
/// order of `order`.
pub open spec fn input_actions(upd: u64, order: Seq<Input>, inputs: Set<Input>, on: bool) -> Seq<
    (u64, SpecDemoAction),
>
    decreases order.len(),
{
    if order.len() == 0 {
        Seq::empty()
    } else {
        let prev = input_actions(upd, order.drop_last(), inputs, on);
        let input = order.last();
        if inputs.contains(input) {
            prev.push(
                (
                    upd,
                    if on {
                        SpecDemoAction::InputOn(input)
                    } else {
                        SpecDemoAction::InputOff(input)
                    },
                ),
            )
        } else {
            prev
        }
    }
}

/// How the look-angle cooldowns move and whether the angle is recorded: `shot`
/// and `look` are the cooldowns, `shooting` whether the device shoots and
/// `changed` whether the angle moved away from the last recorded one. The result
/// is the new cooldowns and whether the angle is recorded.
pub open spec fn look_step(shot: u64, look: u64, shooting: bool, changed: bool) -> (
    u64,
    u64,
    bool,
) {
    let (shot1, look1, record1) = if shooting {
        if shot == 0 {
            if changed {
                (5u64, 20u64, true)
            } else {
                (0u64, look, false)
            }
        } else {
            ((shot - 1) as u64, look, false)
        }
    } else {
        (0u64, look, false)
    };
    if look1 == 0 {
        if changed {
            (shot1, 20u64, true)
        } else {
            (shot1, 0u64, record1)
        }
    } else {
        (shot1, (look1 - 1) as u64, record1)
    }
}

/// When the look angle is recorded, and how the two cooldowns move: the
/// angle is recorded exactly when it changed and either a shot is held with
/// the shot cooldown over, or the look cooldown is over. A shot at a changed
/// angle with the shot cooldown over is recorded whatever the look cooldown,
/// and sets the shot cooldown to 5 and the look cooldown to 19 (20, counted
/// down in the same update). Otherwise a held shot counts its cooldown down
/// by one (it stays at zero when over), and letting go of shoot clears it; the
/// look cooldown becomes 20 when the angle is recorded through it, and else
/// counts down by one, staying at zero when over.
pub proof fn lemma_look_recording(shot: u64, look: u64, shooting: bool, changed: bool)
    ensures
        ({
            let r = look_step(shot, look, shooting, changed);
            &&& r.2 <==> (changed && ((shooting && shot == 0) || look == 0))
            &&& (shooting && shot == 0 && changed) ==> (r.0 == 5 && r.1 == 19 && r.2)
            &&& !(shooting && shot == 0 && changed) ==> {
                &&& r.0 == (if !shooting || shot == 0 {
                    0
                } else {
                    shot - 1
                })
                &&& r.1 == (if look == 0 {
                    if changed {
                        20
                    } else {
                        0
                    }
                } else {
                    look - 1
                })
            }
        }),
{
}

/// Records the inputs of a device update by update, keeping the movie small:
/// an input is recorded when it changes, and the look angle at most every 20
/// updates (or when a shot is fired, at most every 5 updates).
pub struct DemoRecorder {
    actions: Vec<(u64, DemoAction)>,
    current_inputs: InputSet,
    current_upd: u64,
    shot_cooldown: u64,
    look_cooldown: u64,
    first_upd: Ghost<int>,
    history: Ghost<Seq<Set<Input>>>,
}

impl DemoRecorder {
    /// The recorded actions are sorted, none is after the current update, and
    /// replaying them gives the inputs held now.
    pub closed spec fn wf(&self) -> bool {
        &&& self.wf_base()
        &&& self.current_inputs@ == last_held(self.history@)
        &&& input_part(action_views(self.actions@)) == recorded_changes(
            self.first_upd@,
            self.history@,
        )
    }

    /// What holds also while the actions of one update are being added.
    closed spec fn wf_base(&self) -> bool {
        &&& actions_sorted(action_views(self.actions@))
        &&& forall|i: int|
            0 <= i < self.actions@.len() ==> #[trigger] self.actions@[i].0 <= self.current_upd
        &&& replay(action_views(self.actions@)).0 == self.current_inputs@
        &&& self.first_upd@ + self.history@.len() == self.current_upd
        &&& history_matches(action_views(self.actions@), self.first_upd@, self.history@)
    }

    /// The update at which recording started.
    pub closed spec fn first_update(&self) -> int {
        self.first_upd@
    }

    /// The inputs held at each recorded update, from the first one on.
    pub closed spec fn history(&self) -> Seq<Set<Input>> {
        self.history@
    }

    pub closed spec fn actions(&self) -> Seq<(u64, SpecDemoAction)> {
        action_views(self.actions@)
    }

    /// What a well-formed recorder has recorded: sorted actions that replay to the
    /// inputs held now, and, for every recorded update, to the inputs held then.
    pub proof fn lemma_recording(r: DemoRecorder)
        requires
            r.wf(),
        ensures
            actions_sorted(r.actions()),
            replay(r.actions()).0 == r.current_inputs(),
            history_matches(r.actions(), r.first_update(), r.history()),
            r.first_update() + r.history().len() == r.current_update(),
            input_part(r.actions()) == recorded_changes(r.first_update(), r.history()),
            r.current_inputs() == last_held(r.history()),
    {
    }

    pub closed spec fn current_inputs(&self) -> Set<Input> {
        self.current_inputs@
    }

    pub closed spec fn current_update(&self) -> u64 {
        self.current_upd
    }

    pub closed spec fn shot_cooldown(&self) -> u64 {
        self.shot_cooldown
    }

    pub closed spec fn look_cooldown(&self) -> u64 {
        self.look_cooldown
    }

    /// Starts recording at `starting_update`, with no input held.
    pub fn new(starting_update: u64) -> (r: DemoRecorder)
        ensures
            r.wf(),
            r.actions() == Seq::<(u64, SpecDemoAction)>::empty(),
            r.current_inputs() == Set::<Input>::empty(),
            r.current_update() == starting_update,
            r.shot_cooldown() == 0,
            r.look_cooldown() == 0,
            r.first_update() == starting_update,
            r.history() == Seq::<Set<Input>>::empty(),
    {
        let r = DemoRecorder {
            actions: Vec::new(),
            current_inputs: InputSet::new(),
            current_upd: starting_update,
            shot_cooldown: 0,
            look_cooldown: 0,
            first_upd: Ghost(starting_update as int),
            history: Ghost(Seq::empty()),
        };
        assert(r.actions() =~= Seq::<(u64, SpecDemoAction)>::empty());
        r
    }

    /// The update that is being recorded.
    pub fn update_number(&self) -> (r: u64)
        ensures
            r == self.current_update(),
    {
        self.current_upd
    }

    /// The recorded movie, made by [`DemoMovie::new`].
    pub fn collect_recording(self) -> (m: DemoMovie)
        requires
            self.wf(),
        ensures
            m@ == movie_of(self.actions()),
    {
        DemoMovie::new(self.actions)
    }

    /// Records the look angle `look_degrees` (decimal text in degrees) when the
    /// cooldowns allow it and the angle changed; returns whether it was recorded.
    pub fn maybe_record_look_angle(
        &mut self,
        shooting: bool,
        look_changed: bool,
        look_degrees: &[u8],
    ) -> (recorded: bool)
        requires
            old(self).wf(),
        ensures
            final(self).wf(),
            (final(self).shot_cooldown(), final(self).look_cooldown(), recorded) == look_step(
                old(self).shot_cooldown(),
                old(self).look_cooldown(),
                shooting,
                look_changed,
            ),
            final(self).actions() == if recorded {
                old(self).actions().push(
                    (old(self).current_update(), SpecDemoAction::SetLookAngle(look_degrees@)),
                )
            } else {
                old(self).actions()
            },
            final(self).current_inputs() == old(self).current_inputs(),
            final(self).current_update() == old(self).current_update(),
            final(self).first_update() == old(self).first_update(),
            final(self).history() == old(self).history(),
    {
        let mut record = false;
        if shooting {
            if self.shot_cooldown == 0 {
                if look_changed {
                    record = true;
                    self.shot_cooldown = 5;
                    self.look_cooldown = 20;
                }
            } else {
                self.shot_cooldown = self.shot_cooldown - 1;
            }
        } else {
            self.shot_cooldown = 0;
        }
        if self.look_cooldown == 0 {
            if look_changed {
                record = true;
                self.look_cooldown = 20;
            }
        } else {
            self.look_cooldown = self.look_cooldown - 1;
        }
        if record {
            let ghost old_actions = self.actions@;
            let degrees = crate::level_parsing::slice_to_vec_u8(look_degrees);
            self.actions.push((self.current_upd, DemoAction::SetLookAngle(degrees)));
            proof {
                assert(action_views(self.actions@) =~= action_views(old_actions).push(
                    (self.current_upd, SpecDemoAction::SetLookAngle(look_degrees@)),
                ));
                assert(action_views(self.actions@).drop_last() =~= action_views(old_actions));
                lemma_history_push(
                    action_views(old_actions),
                    (self.current_upd, SpecDemoAction::SetLookAngle(look_degrees@)),
                    self.first_upd@,
                    self.history@,
                );
            }
        }
        record
    }

    /// Appends `InputOn` (or `InputOff`) actions at the current update for the
    /// inputs of `inputs`, in input order.
    fn push_input_actions(&mut self, inputs: InputSet, on: bool)
        requires
            old(self).wf_base(),
        ensures
            final(self).current_upd == old(self).current_upd,
            final(self).shot_cooldown == old(self).shot_cooldown,
            final(self).look_cooldown == old(self).look_cooldown,
            final(self).current_inputs == old(self).current_inputs,
            final(self).first_upd == old(self).first_upd,
            final(self).history == old(self).history,
            history_matches(final(self).actions(), final(self).first_upd@, final(self).history@),
            final(self).actions() == old(self).actions() + input_actions(
                old(self).current_upd,
                input_order(),
                inputs@,
                on,
            ),
            actions_sorted(final(self).actions()),
            forall|i: int|
                0 <= i < final(self).actions@.len() ==> #[trigger] final(self).actions@[i].0
                    <= final(self).current_upd,
            replay(final(self).actions()).0 == if on {
                old(self).current_inputs@.union(inputs@)
            } else {
                old(self).current_inputs@.difference(inputs@)
            },
    {
        let order = [Input::Left, Input::Right, Input::Shoot];
        assert(order@ =~= input_order());
        let ghost before = self.actions();
        let ghost held = self.current_inputs@;
        let mut k: usize = 0;
        assert(input_order().take(0) =~= Seq::<Input>::empty());
        assert(before + input_actions(self.current_upd, input_order().take(0), inputs@, on)
            =~= before);
        while k < 3
            invariant
                0 <= k <= 3,
                order@ == input_order(),
                self.current_upd == old(self).current_upd,
                self.shot_cooldown == old(self).shot_cooldown,
                self.look_cooldown == old(self).look_cooldown,
                self.current_inputs == old(self).current_inputs,
                self.first_upd == old(self).first_upd,
                self.history == old(self).history,
                self.first_upd@ + self.history@.len() == self.current_upd,
                history_matches(self.actions(), self.first_upd@, self.history@),
                before == old(self).actions(),
                held == old(self).current_inputs@,
                replay(before).0 == held,
                self.actions() == before + input_actions(
                    self.current_upd,
                    input_order().take(k as int),
                    inputs@,
                    on,
                ),
                actions_sorted(self.actions()),
                forall|i: int|
                    0 <= i < self.actions@.len() ==> #[trigger] self.actions@[i].0
                        <= self.current_upd,
                forall|i: Input|
                    #[trigger] replay(self.actions()).0.contains(i) == if order_index(i) < k {
                        if on {
                            held.contains(i) || inputs@.contains(i)
                        } else {
                            held.contains(i) && !inputs@.contains(i)
                        }
                    } else {
                        held.contains(i)
                    },
            decreases 3 - k,
        {
            let input = order[k];
            assert(input == input_order()[k as int]);
            assert(order_index(input) == k);
            assert(forall|i: Input| #[trigger] order_index(i) == k ==> i == input);
            assert(input_order().take(k + 1).drop_last() =~= input_order().take(k as int));
            let ghost prev_actions = self.actions();
            if inputs.contains(input) {
                let action = if on {
                    DemoAction::InputOn(input)
                } else {
                    DemoAction::InputOff(input)
                };
                let ghost av = action@;
                let ghost old_vec = self.actions@;
                self.actions.push((self.current_upd, action));
                proof {
                    assert(self.actions() =~= prev_actions.push((self.current_upd, av)));
                    assert(self.actions().drop_last() =~= prev_actions);
                    lemma_history_push(
                        prev_actions,
                        (self.current_upd, av),
                        self.first_upd@,
                        self.history@,
                    );
                    assert(forall|j: int|
                        0 <= j < old_vec.len() ==> #[trigger] self.actions@[j] == old_vec[j]);
                    assert forall|i: int, j: int|
                        0 <= i <= j < self.actions().len() implies self.actions()[i].0
                        <= self.actions()[j].0 by {
                        if j < prev_actions.len() {
                            assert(self.actions()[i] == prev_actions[i]);
                            assert(self.actions()[j] == prev_actions[j]);
                        } else if i < prev_actions.len() {
                            assert(self.actions()[i] == prev_actions[i]);
                            assert(prev_actions[i].0 == old_vec[i].0);
                        }
                    }
                    assert(replay(self.actions()).0 == if on {
                        replay(prev_actions).0.insert(input)
                    } else {
                        replay(prev_actions).0.remove(input)
                    });
                    assert((before + input_actions(
                        self.current_upd,
                        input_order().take(k + 1),
                        inputs@,
                        on,
                    )) =~= (before + input_actions(
                        self.current_upd,
                        input_order().take(k as int),
                        inputs@,
                        on,
                    )).push((self.current_upd, av)));
                }
            } else {
                proof {
                    assert(input_order().take(k + 1).last() == input);
                }
            }
            k += 1;
        }
        proof {
            assert(input_order().take(3) =~= input_order());
            if on {
                assert(replay(self.actions()).0 =~= held.union(inputs@));
            } else {
                assert(replay(self.actions()).0 =~= held.difference(inputs@));
            }
        }
    }

    /// Records the inputs that the device holds down in this update, `down`:
    /// `InputOn` for each input newly held, then `InputOff` for each input released,
    /// each in input order; then moves to the next update.
    pub fn record_inputs(&mut self, down: InputSet)
        requires
            old(self).wf(),
            old(self).current_update() < u64::MAX,
        ensures
            final(self).wf(),
            final(self).current_inputs() == down@,
            final(self).current_update() == old(self).current_update() + 1,
            final(self).actions() == old(self).actions() + input_actions(
                old(self).current_update(),
                input_order(),
                down@.difference(old(self).current_inputs()),
                true,
            ) + input_actions(
                old(self).current_update(),
                input_order(),
                old(self).current_inputs().difference(down@),
                false,
            ),
            final(self).shot_cooldown() == old(self).shot_cooldown(),
            final(self).look_cooldown() == old(self).look_cooldown(),
            final(self).first_update() == old(self).first_update(),
            final(self).history() == old(self).history().push(down@),
    {
        let to_on = down.difference(self.current_inputs);
        let to_off = self.current_inputs.difference(down);
        let ghost held = self.current_inputs@;
        self.push_input_actions(to_on, true);
        let ghost after_on = self.actions();
        self.current_inputs = self.current_inputs.union(to_on);
        self.push_input_actions(to_off, false);
        self.current_inputs = self.current_inputs.difference(to_off);
        let ghost acts = self.actions();
        let ghost old_hist = self.history@;
        proof {
            assert(held.union(to_on@) =~= held.union(down@));
            assert(held.union(down@).difference(to_off@) =~= down@);
            lemma_count_through_all(acts, self.current_upd as int);
            assert(acts.take(acts.len() as int) =~= acts);
            let new_hist = old_hist.push(down@);
            assert forall|j: int| 0 <= j < new_hist.len() implies replay(
                acts.take(count_through(acts, self.first_upd@ + j) as int),
            ).0 == #[trigger] new_hist[j] by {
                if j < old_hist.len() {
                    assert(new_hist[j] == old_hist[j]);
                }
            }
        }
        self.history = Ghost(self.history@.push(down@));
        self.current_upd = self.current_upd + 1;
        proof {
            assert(held.union(to_on@) =~= held.union(down@));
            assert(held.union(down@).difference(to_off@) =~= down@);
            assert forall|i: int|
                0 <= i < self.actions@.len() implies #[trigger] self.actions@[i].0
                <= self.current_upd by {}
            let cur = old(self).current_upd;
            let old_acts = old(self).actions();
            let on_acts = input_actions(cur, input_order(), to_on@, true);
            let off_acts = input_actions(cur, input_order(), to_off@, false);
            assert(acts == old_acts + on_acts + off_acts);
            lemma_input_part_concat(old_acts + on_acts, off_acts);
            lemma_input_part_concat(old_acts, on_acts);
            lemma_input_part_of_inputs(cur, input_order(), to_on@, true);
            lemma_input_part_of_inputs(cur, input_order(), to_off@, false);
            let new_hist = old_hist.push(down@);
            assert(new_hist.drop_last() =~= old_hist);
            assert(to_on@ == down@.difference(last_held(old_hist)));
            assert(to_off@ == last_held(old_hist).difference(down@));
            assert(input_part(acts) == recorded_changes(self.first_upd@, new_hist));
        }
    }
}

} // verus!
