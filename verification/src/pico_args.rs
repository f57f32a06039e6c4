//! An ultra simple command-line argument parser: flags, options with a value,
//! free-standing arguments and subcommands, in any order. No help generation.
//! Arguments are raw bytes, as the operating system hands them over; they need
//! not be UTF-8.
use vstd::prelude::*;
use vstd::utf8::*;
use crate::level_parsing::slice_to_vec_u8;
use crate::text_utils::{starts_with, str_chars, str_from_utf8};

verus! {

// ---------------------------------------------------------------------------
// Keys

/// A keys container: a short key (such as `-v`) and a long key (such as
/// `--verbose`), either of which may be empty.
#[derive(Clone, Copy, Debug)]
pub struct Keys([&'static str; 2]);

/// Whether a key starts with `-`.
pub open spec fn starts_with_dash(k: Seq<char>) -> bool {
    k.len() >= 1 && k[0] == '-'
}

/// Whether a key starts with `--`.
pub open spec fn is_long_key(k: Seq<char>) -> bool {
    k.len() >= 2 && k[0] == '-' && k[1] == '-'
}

/// Whether a short key is a single character after its first one, or that
/// character repeated (`-v`, `-vvv`).
pub open spec fn is_valid_shortflag(k: Seq<char>) -> bool {
    forall|i: int| 2 <= i < k.len() ==> #[trigger] k[i] == k[1]
}

/// The keys that a short/long pair may be made of.
pub open spec fn is_valid_key_pair(short: Seq<char>, long: Seq<char>) -> bool {
    &&& starts_with_dash(short)
    &&& is_valid_shortflag(short)
    &&& !is_long_key(short)
    &&& is_long_key(long)
}

/// The keys that a single key may be.
pub open spec fn is_valid_key(k: Seq<char>) -> bool {
    starts_with_dash(k) && (!is_long_key(k) ==> is_valid_shortflag(k))
}

/// Checks that a short key is a single character after its first one, or that
/// character repeated.
pub fn validate_shortflag(short_key: &str) -> (r: bool)
    ensures
        r == is_valid_shortflag(short_key@),
{
    let chars = str_chars(short_key);
    let len = chars.len();
    if len <= 2 {
        return true;
    }
    let first = chars[1];
    let mut i: usize = 2;
    while i < len
        invariant
            chars@ == short_key@,
            len == chars@.len(),
            2 <= i <= len,
            first == chars@[1],
            forall|j: int| 2 <= j < i ==> #[trigger] chars@[j] == first,
        decreases len - i,
    {
        if chars[i] != first {
            return false;
        }
        i += 1;
    }
    true
}

impl Keys {
    /// The short key.
    pub closed spec fn short_key(self) -> &'static str {
        self.0[0]
    }

    /// The long key.
    pub closed spec fn long_key(self) -> &'static str {
        self.0[1]
    }

    /// Keys made of a short and a long key.
    pub fn from_pair(v: [&'static str; 2]) -> (k: Keys)
        requires
            is_valid_key_pair(v[0]@, v[1]@),
        ensures
            k.short_key() == v[0],
            k.long_key() == v[1],
    {
        Keys(v)
    }

    /// Keys made of a single key; the long key is left empty.
    pub fn from_key(v: &'static str) -> (k: Keys)
        requires
            is_valid_key(v@),
        ensures
            k.short_key() == v,
            k.long_key()@.len() == 0,
    {
        let empty = "";
        proof {
            reveal_strlit("");
        }
        Keys([v, empty])
    }

    /// The short key.
    pub fn first(&self) -> (r: &'static str)
        ensures
            r == self.short_key(),
    {
        self.0[0]
    }

    /// The long key.
    pub fn second(&self) -> (r: &'static str)
        ensures
            r == self.long_key(),
    {
        self.0[1]
    }
}

// ---------------------------------------------------------------------------
// Errors

/// A list of possible errors.
#[derive(Clone, Debug)]
pub enum Error {
    /// Arguments must be valid UTF-8 strings.
    NonUtf8Argument,
    /// A missing free-standing argument.
    MissingArgument,
    /// A missing option.
    MissingOption(Keys),
    /// An option without a value.
    OptionWithoutAValue(&'static str),
    /// Failed to parse a UTF-8 free-standing argument.
    Utf8ArgumentParsingFailed { value: String, cause: String },
    /// Failed to parse a raw free-standing argument.
    ArgumentParsingFailed { cause: String },
}

/// The message of an error.
pub open spec fn error_message(e: Error) -> Seq<char> {
    match e {
        Error::NonUtf8Argument => "argument is not a UTF-8 string"@,
        Error::MissingArgument => "free-standing argument is missing"@,
        Error::MissingOption(key) => if key.long_key()@.len() == 0 {
            "the '"@ + key.short_key()@ + "' option must be set"@
        } else {
            "the '"@ + key.short_key()@ + "/"@ + key.long_key()@ + "' option must be set"@
        },
        Error::OptionWithoutAValue(key) => "the '"@ + key@
            + "' option doesn't have an associated value"@,
        Error::Utf8ArgumentParsingFailed { value, cause } => "failed to parse '"@ + value@
            + "': "@ + cause@,
        Error::ArgumentParsingFailed { cause } => "failed to parse a binary argument: "@
            + cause@,
    }
}

impl Error {
    /// The error's message.
    pub fn to_string(&self) -> (r: String)
        ensures
            r@ == error_message(*self),
    {
        match self {
            Error::NonUtf8Argument => String::from_str("argument is not a UTF-8 string"),
            Error::MissingArgument => String::from_str("free-standing argument is missing"),
            Error::MissingOption(key) => {
                let mut r = String::from_str("the '");
                r.append(key.first());
                if key.second().is_empty() {
                    r.append("' option must be set");
                } else {
                    r.append("/");
                    r.append(key.second());
                    r.append("' option must be set");
                }
                r
            },
            Error::OptionWithoutAValue(key) => {
                let mut r = String::from_str("the '");
                r.append(key);
                r.append("' option doesn't have an associated value");
                r
            },
            Error::Utf8ArgumentParsingFailed { value, cause } => {
                let mut r = String::from_str("failed to parse '");
                r.append(value.as_str());
                r.append("': ");
                r.append(cause.as_str());
                r
            },
            Error::ArgumentParsingFailed { cause } => {
                let mut r = String::from_str("failed to parse a binary argument: ");
                r.append(cause.as_str());
                r
            },
        }
    }
}

} // verus!

verus! {

// ---------------------------------------------------------------------------
// Arguments

/// An arguments parser: the arguments that are left, in order.
#[derive(Clone, Debug)]
pub struct Arguments(pub Vec<Vec<u8>>);

impl View for Arguments {
    type V = Seq<Seq<u8>>;

    open spec fn view(&self) -> Seq<Seq<u8>> {
        self.0@.map_values(|a: Vec<u8>| a@)
    }
}

/// The byte of `-`.
pub const DASH: u8 = 45;

/// Where `key` first occurs among `args`; an empty key never does.
pub open spec fn key_position(args: Seq<Seq<u8>>, key: &'static str) -> Option<int> {
    if key@.len() == 0 {
        None
    } else {
        args.index_of_first(encode_utf8(key@))
    }
}

/// Where `keys` first match an argument, and which key matched: the short key
/// is looked for first, then the long one.
pub open spec fn spec_index_of(args: Seq<Seq<u8>>, keys: Keys) -> Option<(int, &'static str)> {
    match key_position(args, keys.short_key()) {
        Some(i) => Some((i, keys.short_key())),
        None => match key_position(args, keys.long_key()) {
            Some(i) => Some((i, keys.long_key())),
            None => None,
        },
    }
}

/// The byte of `=`.
pub const EQUALS: u8 = 61;

/// The start of an argument that joins `key` and its value: the key and `=`.
pub open spec fn joined_prefix(key: &'static str) -> Seq<u8> {
    encode_utf8(key@).push(EQUALS)
}

/// Whether the argument `a` joins the non-empty `key` and a value, as in
/// `--key=value`.
pub open spec fn is_joined_arg(a: Seq<u8>, key: &'static str) -> bool {
    &&& key@.len() > 0
    &&& joined_prefix(key).len() <= a.len()
    &&& a.take(joined_prefix(key).len() as int) == joined_prefix(key)
}

/// Whether `i` is the first argument among `args` that joins `key` and a value.
pub open spec fn is_first_joined(args: Seq<Seq<u8>>, key: &'static str, i: int) -> bool {
    &&& 0 <= i < args.len()
    &&& is_joined_arg(args[i], key)
    &&& forall|j: int| 0 <= j < i ==> !is_joined_arg(#[trigger] args[j], key)
}

/// The first argument among `args` that joins `key` and a value.
pub open spec fn joined_position(args: Seq<Seq<u8>>, key: &'static str) -> Option<int> {
    if exists|i: int| 0 <= i < args.len() && is_joined_arg(#[trigger] args[i], key) {
        Some(choose|i: int| is_first_joined(args, key, i))
    } else {
        None
    }
}

/// Where `keys` first match an argument that joins a key and its value, and
/// which key matched: the short key is looked for first, then the long one.
pub open spec fn spec_joined_index_of(args: Seq<Seq<u8>>, keys: Keys) -> Option<
    (int, &'static str),
> {
    match joined_position(args, keys.short_key()) {
        Some(i) => Some((i, keys.short_key())),
        None => match joined_position(args, keys.long_key()) {
            Some(i) => Some((i, keys.long_key())),
            None => None,
        },
    }
}

/// A joined argument has a first one before or at it.
proof fn lemma_first_joined_exists(args: Seq<Seq<u8>>, key: &'static str, i: int)
    requires
        0 <= i < args.len(),
        is_joined_arg(args[i], key),
    ensures
        exists|k: int| is_first_joined(args, key, k),
    decreases i,
{
    if exists|j: int| 0 <= j < i && is_joined_arg(#[trigger] args[j], key) {
        let j = choose|j: int| 0 <= j < i && is_joined_arg(#[trigger] args[j], key);
        lemma_first_joined_exists(args, key, j);
    } else {
        assert(is_first_joined(args, key, i));
    }
}

/// `joined_position` names the first joined argument.
proof fn lemma_joined_position(args: Seq<Seq<u8>>, key: &'static str)
    ensures
        joined_position(args, key) matches Some(i) ==> is_first_joined(args, key, i),
{
    if exists|i: int| 0 <= i < args.len() && is_joined_arg(#[trigger] args[i], key) {
        let i = choose|i: int| 0 <= i < args.len() && is_joined_arg(#[trigger] args[i], key);
        lemma_first_joined_exists(args, key, i);
    }
}

/// The first joined argument is the one `joined_position` names.
proof fn lemma_joined_position_is(args: Seq<Seq<u8>>, key: &'static str, i: int)
    requires
        is_first_joined(args, key, i),
    ensures
        joined_position(args, key) == Some(i),
{
    assert(is_joined_arg(args[i], key));
    lemma_joined_position(args, key);
    let c = joined_position(args, key)->0;
    if c < i {
        assert(!is_joined_arg(args[c], key));
    }
    if i < c {
        assert(!is_joined_arg(args[i], key));
    }
}

/// A joined match is at an index of an argument.
pub proof fn lemma_joined_index_of_bounds(args: Seq<Seq<u8>>, keys: Keys)
    ensures
        spec_joined_index_of(args, keys) matches Some((i, key)) ==> is_first_joined(args, key, i),
{
    lemma_joined_position(args, keys.short_key());
    lemma_joined_position(args, keys.long_key());
}

/// What a lookup of an option finds among `args`, when its value must be UTF-8.
pub enum ValueLookup {
    /// No key matches.
    Absent,
    /// The matching key is the last argument.
    WithoutValue(&'static str),
    /// The argument after the key is not UTF-8.
    NotUtf8,
    /// The key is at the index, and the value is the text after it.
    Present(int, Seq<char>),
    /// The argument at the index joins the key and the value, which is the
    /// text after the `=`.
    Joined(int, Seq<char>),
}

/// The value that a lookup found.
pub open spec fn looked_up_value(l: ValueLookup) -> Option<Seq<char>> {
    match l {
        ValueLookup::Present(_, value) => Some(value),
        ValueLookup::Joined(_, value) => Some(value),
        _ => None,
    }
}

/// The lookup of `keys` among `args`, for an option whose value must be UTF-8.
pub open spec fn value_lookup(args: Seq<Seq<u8>>, keys: Keys) -> ValueLookup {
    match spec_index_of(args, keys) {
        None => match spec_joined_index_of(args, keys) {
            None => ValueLookup::Absent,
            Some((idx, key)) => {
                let value = args[idx].skip(joined_prefix(key).len() as int);
                if value.len() == 0 {
                    ValueLookup::WithoutValue(key)
                } else if !valid_utf8(value) {
                    ValueLookup::NotUtf8
                } else {
                    ValueLookup::Joined(idx, decode_utf8(value))
                }
            },
        },
        Some((idx, key)) => if idx + 1 >= args.len() {
            ValueLookup::WithoutValue(key)
        } else if !valid_utf8(args[idx + 1]) {
            ValueLookup::NotUtf8
        } else {
            ValueLookup::Present(idx, decode_utf8(args[idx + 1]))
        },
    }
}

/// `args` without the key at `idx` and the value after it.
pub open spec fn remove_pair(args: Seq<Seq<u8>>, idx: int) -> Seq<Seq<u8>> {
    args.remove(idx).remove(idx)
}

/// Whether an argument is text that starts with `-`.
pub open spec fn is_dash_arg(a: Seq<u8>) -> bool {
    valid_utf8(a) && a.len() > 0 && a[0] == DASH
}

/// A match is at an index of an argument.
pub proof fn lemma_index_of_bounds(args: Seq<Seq<u8>>, keys: Keys)
    ensures
        spec_index_of(args, keys) matches Some((i, _)) ==> 0 <= i < args.len(),
{
    args.index_of_first_ensures(encode_utf8(keys.short_key()@));
    args.index_of_first_ensures(encode_utf8(keys.long_key()@));
}

/// Whether two byte strings are equal.
fn bytes_eq(a: &[u8], b: &[u8]) -> (r: bool)
    ensures
        r == (a@ == b@),
{
    if a.len() != b.len() {
        return false;
    }
    let mut i: usize = 0;
    while i < a.len()
        invariant
            a@.len() == b@.len(),
            0 <= i <= a@.len(),
            forall|j: int| 0 <= j < i ==> a@[j] == b@[j],
        decreases a@.len() - i,
    {
        if a[i] != b[i] {
            return false;
        }
        i += 1;
    }
    assert(a@ =~= b@);
    true
}

/// Where `key` first occurs among `args`.
fn position_of(args: &Vec<Vec<u8>>, key: &[u8]) -> (r: Option<usize>)
    ensures
        match r {
            Some(i) => args@.map_values(|a: Vec<u8>| a@).index_of_first(key@) == Some(i as int),
            None => args@.map_values(|a: Vec<u8>| a@).index_of_first(key@) is None,
        },
{
    let ghost view = args@.map_values(|a: Vec<u8>| a@);
    proof {
        view.index_of_first_ensures(key@);
    }
    let mut i: usize = 0;
    while i < args.len()
        invariant
            view == args@.map_values(|a: Vec<u8>| a@),
            0 <= i <= args@.len(),
            forall|j: int| 0 <= j < i ==> view[j] != key@,
        decreases args@.len() - i,
    {
        if bytes_eq(args[i].as_slice(), key) {
            assert(view[i as int] == key@);
            assert(view.contains(key@));
            proof {
                view.index_of_first_ensures(key@);
            }
            let ghost k = view.index_of_first(key@)->0;
            assert(k == i) by {
                if k < i {
                    assert(view[k] != key@);
                }
            }
            return Some(i);
        }
        i += 1;
    }
    assert(!view.contains(key@));
    None
}

impl Arguments {
    /// Creates a parser from a vector of arguments; the executable's path must
    /// not be among them.
    pub fn from_vec(args: Vec<Vec<u8>>) -> (r: Arguments)
        ensures
            r@ == args@.map_values(|a: Vec<u8>| a@),
    {
        Arguments(args)
    }

    /// Where `keys` first match an argument, and which key matched.
    fn index_of(&self, keys: Keys) -> (r: Option<(usize, &'static str)>)
        ensures
            match r {
                Some((i, k)) => spec_index_of(self@, keys) == Some((i as int, k)),
                None => spec_index_of(self@, keys) is None,
            },
    {
        let short = keys.first();
        if !short.is_empty() {
            match position_of(&self.0, short.as_bytes()) {
                Some(i) => {
                    return Some((i, short));
                },
                None => {},
            }
        }
        let long = keys.second();
        if !long.is_empty() {
            match position_of(&self.0, long.as_bytes()) {
                Some(i) => {
                    return Some((i, long));
                },
                None => {},
            }
        }
        None
    }

    /// Removes the argument at `idx`.
    fn remove_at(&mut self, idx: usize) -> (r: Vec<u8>)
        requires
            idx < old(self)@.len(),
        ensures
            final(self)@ == old(self)@.remove(idx as int),
            r@ == old(self)@[idx as int],
    {
        let ghost before = self.0@;
        let r = self.0.remove(idx);
        assert(self.0@.map_values(|a: Vec<u8>| a@) =~= before.map_values(|a: Vec<u8>| a@).remove(
            idx as int,
        ));
        r
    }

    /// Parses the name of the subcommand, that is, the first argument. Gives
    /// `None` where there are no arguments left or the first one is text that
    /// starts with `-`; these leave the arguments as they are. Otherwise the
    /// first argument is taken out, and it must be UTF-8.
    pub fn subcommand(&mut self) -> (r: Result<Option<String>, Error>)
        ensures
            old(self)@.len() == 0 || is_dash_arg(old(self)@[0]) ==> {
                &&& r matches Ok(None)
                &&& final(self)@ == old(self)@
            },
            old(self)@.len() > 0 && !is_dash_arg(old(self)@[0]) ==> {
                &&& final(self)@ == old(self)@.drop_first()
                &&& valid_utf8(old(self)@[0]) ==> (r matches Ok(Some(s)) && s@ == decode_utf8(
                    old(self)@[0],
                ))
                &&& !valid_utf8(old(self)@[0]) ==> r matches Err(Error::NonUtf8Argument)
            },
    {
        if self.0.len() == 0 {
            return Ok(None);
        }
        let is_dash = match str_from_utf8(self.0[0].as_slice()) {
            Some(_) => self.0[0].len() > 0 && self.0[0][0] == DASH,
            None => false,
        };
        assert(self@[0] == self.0@[0]@);
        if is_dash {
            return Ok(None);
        }
        let first = self.remove_at(0);
        assert(old(self)@.remove(0) =~= old(self)@.drop_first());
        match str_from_utf8(first.as_slice()) {
            Some(s) => Ok(Some(s.to_owned())),
            None => Err(Error::NonUtf8Argument),
        }
    }

    /// Checks that the arguments contain a flag, and takes its first
    /// occurrence out: a flag given `n` times makes the first `n` calls give
    /// `true`.
    pub fn contains(&mut self, keys: Keys) -> (r: bool)
        ensures
            spec_index_of(old(self)@, keys) matches Some((i, _)) ==> 0 <= i < old(self)@.len(),
            match spec_index_of(old(self)@, keys) {
                Some((i, _)) => r && final(self)@ == old(self)@.remove(i),
                None => !r && final(self)@ == old(self)@,
            },
    {
        proof {
            lemma_index_of_bounds(self@, keys);
        }
        match self.index_of(keys) {
            Some((idx, _)) => {
                self.remove_at(idx);
                true
            },
            None => false,
        }
    }
}

// ---------------------------------------------------------------------------
// Options and free-standing arguments

/// What a lookup of an option finds among `args`, when its value may be any
/// bytes.
pub enum RawValueLookup {
    /// No key matches.
    Absent,
    /// The matching key is the last argument.
    WithoutValue(&'static str),
    /// The key is at the index, and the value is the argument after it.
    Present(int, Seq<u8>),
}

/// The lookup of `keys` among `args`, for an option whose value may be any bytes.
pub open spec fn raw_value_lookup(args: Seq<Seq<u8>>, keys: Keys) -> RawValueLookup {
    match spec_index_of(args, keys) {
        None => RawValueLookup::Absent,
        Some((idx, key)) => if idx + 1 >= args.len() {
            RawValueLookup::WithoutValue(key)
        } else {
            RawValueLookup::Present(idx, args[idx + 1])
        },
    }
}

/// Whether `f`, called on the text `value`, may give `out`.
pub open spec fn parsed_from<T, F: Fn(&str) -> Result<T, String>>(
    f: F,
    value: Seq<char>,
    out: Result<T, String>,
) -> bool {
    exists|s: &str| s@ == value && #[trigger] call_ensures(f, (s,), out)
}

/// Whether `f`, called on the bytes `value`, may give `out`.
pub open spec fn parsed_from_bytes<T, F: Fn(&[u8]) -> Result<T, String>>(
    f: F,
    value: Seq<u8>,
    out: Result<T, String>,
) -> bool {
    exists|b: &[u8]| b@ == value && #[trigger] call_ensures(f, (b,), out)
}

/// What `opt_value_from_fn` gives for the arguments `args`, which it leaves as
/// `after`.
pub open spec fn opt_value_outcome<T, F: Fn(&str) -> Result<T, String>>(
    args: Seq<Seq<u8>>,
    keys: Keys,
    f: F,
    r: Result<Option<T>, Error>,
    after: Seq<Seq<u8>>,
) -> bool {
    match value_lookup(args, keys) {
        ValueLookup::Absent => r matches Ok(None) && after == args,
        ValueLookup::WithoutValue(key) => {
            &&& r matches Err(Error::OptionWithoutAValue(k))
            &&& k == key
            &&& after == args
        },
        ValueLookup::NotUtf8 => r matches Err(Error::NonUtf8Argument) && after == args,
        ValueLookup::Present(idx, value) => match r {
            Ok(Some(v)) => after == remove_pair(args, idx) && parsed_from(f, value, Ok(v)),
            Err(Error::Utf8ArgumentParsingFailed { value: text, cause }) => {
                &&& after == args
                &&& text@ == value
                &&& parsed_from(f, value, Err(cause))
            },
            _ => false,
        },
        ValueLookup::Joined(idx, value) => match r {
            Ok(Some(v)) => after == args.remove(idx) && parsed_from(f, value, Ok(v)),
            Err(Error::Utf8ArgumentParsingFailed { value: text, cause }) => {
                &&& after == args
                &&& text@ == value
                &&& parsed_from(f, value, Err(cause))
            },
            _ => false,
        },
    }
}

/// What `opt_value_from_os_str` gives for the arguments `args`, which it
/// leaves as `after`.
pub open spec fn opt_raw_value_outcome<T, F: Fn(&[u8]) -> Result<T, String>>(
    args: Seq<Seq<u8>>,
    keys: Keys,
    f: F,
    r: Result<Option<T>, Error>,
    after: Seq<Seq<u8>>,
) -> bool {
    match raw_value_lookup(args, keys) {
        RawValueLookup::Absent => r matches Ok(None) && after == args,
        RawValueLookup::WithoutValue(key) => {
            &&& r matches Err(Error::OptionWithoutAValue(k))
            &&& k == key
            &&& after == args
        },
        RawValueLookup::Present(idx, value) => match r {
            Ok(Some(v)) => after == remove_pair(args, idx) && parsed_from_bytes(f, value, Ok(v)),
            Err(Error::ArgumentParsingFailed { cause }) => after == args && parsed_from_bytes(
                f,
                value,
                Err(cause),
            ),
            _ => false,
        },
    }
}

/// What `opt_free_from_fn` gives for the arguments `args`, which it leaves as
/// `after`: the first argument is taken out whatever becomes of it.
pub open spec fn opt_free_outcome<T, F: Fn(&str) -> Result<T, String>>(
    args: Seq<Seq<u8>>,
    f: F,
    r: Result<Option<T>, Error>,
    after: Seq<Seq<u8>>,
) -> bool {
    if args.len() == 0 {
        r matches Ok(None) && after == args
    } else {
        &&& after == args.drop_first()
        &&& !valid_utf8(args[0]) ==> (r matches Err(Error::NonUtf8Argument))
        &&& valid_utf8(args[0]) ==> match r {
            Ok(Some(v)) => parsed_from(f, decode_utf8(args[0]), Ok(v)),
            Err(Error::Utf8ArgumentParsingFailed { value, cause }) => {
                &&& value@ == decode_utf8(args[0])
                &&& parsed_from(f, decode_utf8(args[0]), Err(cause))
            },
            _ => false,
        }
    }
}

/// What `opt_free_from_os_str` gives for the arguments `args`, which it
/// leaves as `after`: the first argument is taken out whatever becomes of it.
pub open spec fn opt_raw_free_outcome<T, F: Fn(&[u8]) -> Result<T, String>>(
    args: Seq<Seq<u8>>,
    f: F,
    r: Result<Option<T>, Error>,
    after: Seq<Seq<u8>>,
) -> bool {
    if args.len() == 0 {
        r matches Ok(None) && after == args
    } else {
        &&& after == args.drop_first()
        &&& match r {
            Ok(Some(v)) => parsed_from_bytes(f, args[0], Ok(v)),
            Err(Error::ArgumentParsingFailed { cause }) => parsed_from_bytes(f, args[0], Err(cause)),
            _ => false,
        }
    }
}

/// What a required lookup gives, from what the optional one gives: a missing
/// option or argument becomes the error `missing`.
pub open spec fn required<T>(opt: Result<Option<T>, Error>, missing: Error) -> Result<T, Error> {
    match opt {
        Ok(Some(v)) => Ok(v),
        Ok(None) => Err(missing),
        Err(e) => Err(e),
    }
}

/// The arguments after `n` options of `keys` have been taken out, each with
/// the value after it.
pub open spec fn after_values(args: Seq<Seq<u8>>, keys: Keys, n: nat) -> Seq<Seq<u8>>
    decreases n,
{
    if n == 0 {
        args
    } else {
        let prev = after_values(args, keys, (n - 1) as nat);
        match value_lookup(prev, keys) {
            ValueLookup::Present(idx, _) => remove_pair(prev, idx),
            ValueLookup::Joined(idx, _) => prev.remove(idx),
            _ => prev,
        }
    }
}

/// The arguments after `n` options of `keys` have been taken out, each with
/// the value after it, where values may be any bytes.
pub open spec fn after_raw_values(args: Seq<Seq<u8>>, keys: Keys, n: nat) -> Seq<Seq<u8>>
    decreases n,
{
    if n == 0 {
        args
    } else {
        let prev = after_raw_values(args, keys, (n - 1) as nat);
        match raw_value_lookup(prev, keys) {
            RawValueLookup::Present(idx, _) => remove_pair(prev, idx),
            _ => prev,
        }
    }
}

/// What `values_from_fn` gives for the arguments `args`, which it leaves as
/// `after`: `n` occurrences were parsed and taken out, and the lookup after
/// them gave `last`, which is either no occurrence or the error that is
/// returned.
pub open spec fn values_outcome<T, F: Fn(&str) -> Result<T, String>>(
    args: Seq<Seq<u8>>,
    keys: Keys,
    f: F,
    n: nat,
    last: Result<Option<T>, Error>,
    after: Seq<Seq<u8>>,
    r: Result<Vec<T>, Error>,
) -> bool {
    &&& forall|i: nat| i < n ==> looked_up_value(value_lookup(#[trigger] after_values(args, keys, i), keys)) is Some
    &&& opt_value_outcome(after_values(args, keys, n), keys, f, last, after)
    &&& match r {
        Ok(vs) => {
            &&& last matches Ok(None)
            &&& vs@.len() == n
            &&& forall|i: int|
                0 <= i < n ==> (looked_up_value(value_lookup(after_values(args, keys, i as nat), keys)) matches Some(value)
                    && parsed_from(f, value, Ok(#[trigger] vs@[i])))
        },
        Err(e) => last == Err::<Option<T>, Error>(e),
    }
}

impl Arguments {
    /// Removes the key at `idx` and the value after it.
    fn remove_pair_at(&mut self, idx: usize)
        requires
            idx + 1 < old(self)@.len(),
        ensures
            final(self)@ == remove_pair(old(self)@, idx as int),
    {
        self.remove_at(idx);
        self.remove_at(idx);
    }

    /// The first argument that joins `key` and a value.
    fn joined_position_of(&self, key: &'static str) -> (r: Option<usize>)
        ensures
            match r {
                Some(i) => joined_position(self@, key) == Some(i as int) && is_first_joined(
                    self@,
                    key,
                    i as int,
                ),
                None => joined_position(self@, key) is None,
            },
    {
        if key.is_empty() {
            assert(!exists|i: int| 0 <= i < self@.len() && is_joined_arg(#[trigger] self@[i], key));
            return None;
        }
        let mut prefix = slice_to_vec_u8(key.as_bytes());
        prefix.push(EQUALS);
        assert(prefix@ == joined_prefix(key));
        let mut i: usize = 0;
        while i < self.0.len()
            invariant
                key@.len() > 0,
                prefix@ == joined_prefix(key),
                0 <= i <= self@.len(),
                forall|j: int| 0 <= j < i ==> !is_joined_arg(#[trigger] self@[j], key),
            decreases self@.len() - i,
        {
            assert(self@[i as int] == self.0@[i as int]@);
            if starts_with(self.0[i].as_slice(), prefix.as_slice()) {
                assert(is_first_joined(self@, key, i as int));
                proof {
                    lemma_joined_position_is(self@, key, i as int);
                }
                return Some(i);
            }
            i += 1;
        }
        None
    }

    /// Where `keys` first match an argument that joins a key and its value, and
    /// which key matched.
    fn joined_index_of(&self, keys: Keys) -> (r: Option<(usize, &'static str)>)
        ensures
            match r {
                Some((i, k)) => spec_joined_index_of(self@, keys) == Some((i as int, k))
                    && is_first_joined(self@, k, i as int),
                None => spec_joined_index_of(self@, keys) is None,
            },
    {
        match self.joined_position_of(keys.first()) {
            Some(i) => Some((i, keys.first())),
            None => match self.joined_position_of(keys.second()) {
                Some(i) => Some((i, keys.second())),
                None => None,
            },
        }
    }

    /// Parses an optional option with a value by `f`: `--key value`, or
    /// `--key=value` where no argument is the key alone. The key and its value
    /// are taken out only where `f` succeeds. The argument after the key is its
    /// value, even where it starts with `-`.
    pub fn opt_value_from_fn<T, F: Fn(&str) -> Result<T, String> + Copy>(
        &mut self,
        keys: Keys,
        f: F,
    ) -> (r: Result<Option<T>, Error>)
        requires
            forall|s: &str| #[trigger] call_requires(f, (s,)),
        ensures
            opt_value_outcome(old(self)@, keys, f, r, final(self)@),
    {
        proof {
            lemma_index_of_bounds(self@, keys);
        }
        match self.index_of(keys) {
            None => match self.joined_index_of(keys) {
                None => Ok(None),
                Some((idx, key)) => {
                    let ghost arg = self@[idx as int];
                    assert(arg == self.0@[idx as int]@);
                    let key_len = key.as_bytes().len();
                    let parsed = {
                        let arg_bytes = self.0[idx].as_slice();
                        assert(key_len == joined_prefix(key).len() - 1);
                        let arg_len = arg_bytes.len();
                        assert(joined_prefix(key).len() <= arg_len);
                        let start = key_len + 1;
                        let value_bytes = &arg_bytes[start..arg_len];
                        assert(value_bytes@ =~= arg.skip(joined_prefix(key).len() as int));
                        if value_bytes.len() == 0 {
                            return Err(Error::OptionWithoutAValue(key));
                        }
                        match str_from_utf8(value_bytes) {
                            None => {
                                return Err(Error::NonUtf8Argument);
                            },
                            Some(value) => match f(value) {
                                Ok(v) => Ok(v),
                                Err(cause) => Err(
                                    Error::Utf8ArgumentParsingFailed {
                                        value: value.to_owned(),
                                        cause,
                                    },
                                ),
                            },
                        }
                    };
                    match parsed {
                        Ok(v) => {
                            self.remove_at(idx);
                            Ok(Some(v))
                        },
                        Err(e) => Err(e),
                    }
                },
            },
            Some((idx, key)) => {
                if self.0.len() - idx < 2 {
                    return Err(Error::OptionWithoutAValue(key));
                }
                assert(self@[idx + 1] == self.0@[idx + 1]@);
                let parsed = match str_from_utf8(self.0[idx + 1].as_slice()) {
                    None => {
                        return Err(Error::NonUtf8Argument);
                    },
                    Some(value) => match f(value) {
                        Ok(v) => Ok(v),
                        Err(cause) => Err(
                            Error::Utf8ArgumentParsingFailed { value: value.to_owned(), cause },
                        ),
                    },
                };
                match parsed {
                    Ok(v) => {
                        self.remove_pair_at(idx);
                        Ok(Some(v))
                    },
                    Err(e) => Err(e),
                }
            },
        }
    }

    /// Parses an option with a value by `f`, as `opt_value_from_fn` does: a key
    /// and its value may be separated by a space or by `=`. A missing option is
    /// an error.
    pub fn value_from_fn<T, F: Fn(&str) -> Result<T, String> + Copy>(
        &mut self,
        keys: Keys,
        f: F,
    ) -> (r: Result<T, Error>)
        requires
            forall|s: &str| #[trigger] call_requires(f, (s,)),
        ensures
            exists|opt: Result<Option<T>, Error>|
                opt_value_outcome(old(self)@, keys, f, opt, final(self)@) && r == required(
                    opt,
                    Error::MissingOption(keys),
                ),
    {
        let opt = self.opt_value_from_fn(keys, f);
        let ghost g = opt;
        let r = match opt {
            Ok(Some(v)) => Ok(v),
            Ok(None) => Err(Error::MissingOption(keys)),
            Err(e) => Err(e),
        };
        assert(opt_value_outcome(old(self)@, keys, f, g, self@) && r == required(
            g,
            Error::MissingOption(keys),
        ));
        r
    }

    /// Parses every occurrence of an option with a value by `f`, such as
    /// `--file a --file b`, and takes them all out. No occurrence is no error;
    /// the first failure ends the parse.
    pub fn values_from_fn<T, F: Fn(&str) -> Result<T, String> + Copy>(
        &mut self,
        keys: Keys,
        f: F,
    ) -> (r: Result<Vec<T>, Error>)
        requires
            forall|s: &str| #[trigger] call_requires(f, (s,)),
        ensures
            exists|n: nat, last: Result<Option<T>, Error>|
                values_outcome(old(self)@, keys, f, n, last, final(self)@, r),
    {
        let mut values: Vec<T> = Vec::new();
        let ghost start = self@;
        loop
            invariant
                forall|s: &str| #[trigger] call_requires(f, (s,)),
                start == old(self)@,
                self@ == after_values(start, keys, values@.len() as nat),
                forall|i: nat| i < values@.len() ==> looked_up_value(value_lookup(#[trigger] after_values(start, keys, i), keys)) is Some,
                forall|i: int|
                    0 <= i < values@.len() ==> (looked_up_value(value_lookup(after_values(start, keys, i as nat), keys)) matches Some(value)
                        && parsed_from(f, value, Ok(#[trigger] values@[i]))),
            decreases self@.len(),
        {
            let ghost before = self@;
            let ghost n = values@.len() as nat;
            let step = self.opt_value_from_fn(keys, f);
            let ghost last = step;
            match step {
                Ok(Some(v)) => {
                    proof {
                        lemma_index_of_bounds(before, keys);
                        lemma_joined_index_of_bounds(before, keys);
                        assert(after_values(start, keys, n + 1) == self@);
                    }
                    values.push(v);
                },
                Ok(None) => {
                    let r = Ok(values);
                    assert(values_outcome(start, keys, f, n, last, self@, r));
                    return r;
                },
                Err(e) => {
                    let r = Err(e);
                    assert(values_outcome(start, keys, f, n, last, self@, r));
                    return r;
                },
            }
        }
    }
}

/// What `values_from_os_str` gives for the arguments `args`, which it leaves
/// as `after`: `n` occurrences were parsed and taken out, and the lookup after
/// them gave `last`, which is either no occurrence or the error that is
/// returned.
pub open spec fn raw_values_outcome<T, F: Fn(&[u8]) -> Result<T, String>>(
    args: Seq<Seq<u8>>,
    keys: Keys,
    f: F,
    n: nat,
    last: Result<Option<T>, Error>,
    after: Seq<Seq<u8>>,
    r: Result<Vec<T>, Error>,
) -> bool {
    &&& forall|i: nat|
        i < n ==> raw_value_lookup(#[trigger] after_raw_values(args, keys, i), keys) is Present
    &&& opt_raw_value_outcome(after_raw_values(args, keys, n), keys, f, last, after)
    &&& match r {
        Ok(vs) => {
            &&& last matches Ok(None)
            &&& vs@.len() == n
            &&& forall|i: int|
                0 <= i < n ==> (raw_value_lookup(after_raw_values(args, keys, i as nat), keys) matches RawValueLookup::Present(_, value)
                    && parsed_from_bytes(f, value, Ok(#[trigger] vs@[i])))
        },
        Err(e) => last == Err::<Option<T>, Error>(e),
    }
}

impl Arguments {
    /// Parses an optional option with a value by `f`, which takes the value's
    /// bytes. The key and its value are taken out only where `f` succeeds.
    pub fn opt_value_from_os_str<T, F: Fn(&[u8]) -> Result<T, String> + Copy>(
        &mut self,
        keys: Keys,
        f: F,
    ) -> (r: Result<Option<T>, Error>)
        requires
            forall|b: &[u8]| #[trigger] call_requires(f, (b,)),
        ensures
            opt_raw_value_outcome(old(self)@, keys, f, r, final(self)@),
    {
        proof {
            lemma_index_of_bounds(self@, keys);
        }
        match self.index_of(keys) {
            None => Ok(None),
            Some((idx, key)) => {
                if self.0.len() - idx < 2 {
                    return Err(Error::OptionWithoutAValue(key));
                }
                assert(self@[idx + 1] == self.0@[idx + 1]@);
                match f(self.0[idx + 1].as_slice()) {
                    Ok(v) => {
                        self.remove_pair_at(idx);
                        Ok(Some(v))
                    },
                    Err(cause) => Err(Error::ArgumentParsingFailed { cause }),
                }
            },
        }
    }

    /// Parses an option with a value by `f`, which takes the value's bytes; a
    /// missing option is an error.
    pub fn value_from_os_str<T, F: Fn(&[u8]) -> Result<T, String> + Copy>(
        &mut self,
        keys: Keys,
        f: F,
    ) -> (r: Result<T, Error>)
        requires
            forall|b: &[u8]| #[trigger] call_requires(f, (b,)),
        ensures
            exists|opt: Result<Option<T>, Error>|
                opt_raw_value_outcome(old(self)@, keys, f, opt, final(self)@) && r == required(
                    opt,
                    Error::MissingOption(keys),
                ),
    {
        let opt = self.opt_value_from_os_str(keys, f);
        let ghost g = opt;
        let r = match opt {
            Ok(Some(v)) => Ok(v),
            Ok(None) => Err(Error::MissingOption(keys)),
            Err(e) => Err(e),
        };
        assert(opt_raw_value_outcome(old(self)@, keys, f, g, self@) && r == required(
            g,
            Error::MissingOption(keys),
        ));
        r
    }

    /// Parses every occurrence of an option with a value by `f`, which takes
    /// the values' bytes, and takes them all out. No occurrence is no error;
    /// the first failure ends the parse.
    pub fn values_from_os_str<T, F: Fn(&[u8]) -> Result<T, String> + Copy>(
        &mut self,
        keys: Keys,
        f: F,
    ) -> (r: Result<Vec<T>, Error>)
        requires
            forall|b: &[u8]| #[trigger] call_requires(f, (b,)),
        ensures
            exists|n: nat, last: Result<Option<T>, Error>|
                raw_values_outcome(old(self)@, keys, f, n, last, final(self)@, r),
    {
        let mut values: Vec<T> = Vec::new();
        let ghost start = self@;
        loop
            invariant
                forall|b: &[u8]| #[trigger] call_requires(f, (b,)),
                start == old(self)@,
                self@ == after_raw_values(start, keys, values@.len() as nat),
                forall|i: nat|
                    i < values@.len() ==> raw_value_lookup(
                        #[trigger] after_raw_values(start, keys, i),
                        keys,
                    ) is Present,
                forall|i: int|
                    0 <= i < values@.len() ==> (raw_value_lookup(after_raw_values(start, keys, i as nat), keys) matches RawValueLookup::Present(_, value)
                        && parsed_from_bytes(f, value, Ok(#[trigger] values@[i]))),
            decreases self@.len(),
        {
            let ghost before = self@;
            let ghost n = values@.len() as nat;
            let step = self.opt_value_from_os_str(keys, f);
            let ghost last = step;
            match step {
                Ok(Some(v)) => {
                    proof {
                        lemma_index_of_bounds(before, keys);
                        assert(after_raw_values(start, keys, n + 1) == self@);
                    }
                    values.push(v);
                },
                Ok(None) => {
                    let r = Ok(values);
                    assert(raw_values_outcome(start, keys, f, n, last, self@, r));
                    return r;
                },
                Err(e) => {
                    let r = Err(e);
                    assert(raw_values_outcome(start, keys, f, n, last, self@, r));
                    return r;
                },
            }
        }
    }

    /// Parses an optional free-standing argument, the first one left, by `f`.
    /// The argument is taken out whatever becomes of it; it is up to the
    /// caller to know that it is no unused flag or option.
    pub fn opt_free_from_fn<T, F: Fn(&str) -> Result<T, String>>(&mut self, f: F) -> (r: Result<
        Option<T>,
        Error,
    >)
        requires
            forall|s: &str| #[trigger] call_requires(f, (s,)),
        ensures
            opt_free_outcome(old(self)@, f, r, final(self)@),
    {
        if self.0.len() == 0 {
            return Ok(None);
        }
        let value = self.remove_at(0);
        assert(old(self)@.remove(0) =~= old(self)@.drop_first());
        match str_from_utf8(value.as_slice()) {
            None => Err(Error::NonUtf8Argument),
            Some(text) => match f(text) {
                Ok(v) => Ok(Some(v)),
                Err(cause) => Err(Error::Utf8ArgumentParsingFailed { value: text.to_owned(), cause }),
            },
        }
    }

    /// Parses a free-standing argument, the first one left, by `f`; a missing
    /// argument is an error.
    pub fn free_from_fn<T, F: Fn(&str) -> Result<T, String>>(&mut self, f: F) -> (r: Result<
        T,
        Error,
    >)
        requires
            forall|s: &str| #[trigger] call_requires(f, (s,)),
        ensures
            exists|opt: Result<Option<T>, Error>|
                opt_free_outcome(old(self)@, f, opt, final(self)@) && r == required(
                    opt,
                    Error::MissingArgument,
                ),
    {
        let opt = self.opt_free_from_fn(f);
        let ghost g = opt;
        let r = match opt {
            Ok(Some(v)) => Ok(v),
            Ok(None) => Err(Error::MissingArgument),
            Err(e) => Err(e),
        };
        assert(opt_free_outcome(old(self)@, f, g, self@) && r == required(g, Error::MissingArgument));
        r
    }

    /// Parses an optional free-standing argument, the first one left, by `f`,
    /// which takes its bytes. The argument is taken out whatever becomes of it.
    pub fn opt_free_from_os_str<T, F: Fn(&[u8]) -> Result<T, String>>(&mut self, f: F) -> (r:
        Result<Option<T>, Error>)
        requires
            forall|b: &[u8]| #[trigger] call_requires(f, (b,)),
        ensures
            opt_raw_free_outcome(old(self)@, f, r, final(self)@),
    {
        if self.0.len() == 0 {
            return Ok(None);
        }
        let value = self.remove_at(0);
        assert(old(self)@.remove(0) =~= old(self)@.drop_first());
        match f(value.as_slice()) {
            Ok(v) => Ok(Some(v)),
            Err(cause) => Err(Error::ArgumentParsingFailed { cause }),
        }
    }

    /// Parses a free-standing argument, the first one left, by `f`, which takes
    /// its bytes; a missing argument is an error.
    pub fn free_from_os_str<T, F: Fn(&[u8]) -> Result<T, String>>(&mut self, f: F) -> (r: Result<
        T,
        Error,
    >)
        requires
            forall|b: &[u8]| #[trigger] call_requires(f, (b,)),
        ensures
            exists|opt: Result<Option<T>, Error>|
                opt_raw_free_outcome(old(self)@, f, opt, final(self)@) && r == required(
                    opt,
                    Error::MissingArgument,
                ),
    {
        let opt = self.opt_free_from_os_str(f);
        let ghost g = opt;
        let r = match opt {
            Ok(Some(v)) => Ok(v),
            Ok(None) => Err(Error::MissingArgument),
            Err(e) => Err(e),
        };
        assert(opt_raw_free_outcome(old(self)@, f, g, self@) && r == required(
            g,
            Error::MissingArgument,
        ));
        r
    }

    /// The arguments that are left, for the caller to report or use.
    pub fn finish(self) -> (r: Vec<Vec<u8>>)
        ensures
            r@.map_values(|a: Vec<u8>| a@) == self@,
    {
        self.0
    }
}

} // verus!

verus! {

// ---------------------------------------------------------------------------
// Flags are consumed

/// Whether the argument `a` is one of `keys`.
pub open spec fn matches_keys(a: Seq<u8>, keys: Keys) -> bool {
    ||| keys.short_key()@.len() > 0 && a == encode_utf8(keys.short_key()@)
    ||| keys.long_key()@.len() > 0 && a == encode_utf8(keys.long_key()@)
}

/// How many of `args` are one of `keys`.
pub open spec fn count_matching(args: Seq<Seq<u8>>, keys: Keys) -> nat
    decreases args.len(),
{
    if args.len() == 0 {
        0
    } else {
        count_matching(args.drop_last(), keys) + if matches_keys(args.last(), keys) {
            1nat
        } else {
            0nat
        }
    }
}

proof fn lemma_count_zero(args: Seq<Seq<u8>>, keys: Keys)
    ensures
        count_matching(args, keys) == 0 <==> forall|j: int|
            0 <= j < args.len() ==> !matches_keys(#[trigger] args[j], keys),
    decreases args.len(),
{
    if args.len() > 0 {
        lemma_count_zero(args.drop_last(), keys);
        if count_matching(args, keys) == 0 {
            assert forall|j: int| 0 <= j < args.len() implies !matches_keys(#[trigger] args[j], keys) by {
                if j < args.len() - 1 {
                    assert(args[j] == args.drop_last()[j]);
                }
            }
        }
        if forall|j: int| 0 <= j < args.len() ==> !matches_keys(#[trigger] args[j], keys) {
            assert forall|j: int| 0 <= j < args.drop_last().len() implies !matches_keys(
                #[trigger] args.drop_last()[j],
                keys,
            ) by {
                assert(args.drop_last()[j] == args[j]);
            }
            assert(!matches_keys(args[args.len() - 1], keys));
        }
    }
}

proof fn lemma_count_remove(args: Seq<Seq<u8>>, keys: Keys, i: int)
    requires
        0 <= i < args.len(),
        matches_keys(args[i], keys),
    ensures
        count_matching(args.remove(i), keys) + 1 == count_matching(args, keys),
    decreases args.len(),
{
    if i == args.len() - 1 {
        assert(args.remove(i) =~= args.drop_last());
    } else {
        assert(args.remove(i).drop_last() =~= args.drop_last().remove(i));
        assert(args.remove(i).last() == args.last());
        assert(args.drop_last()[i] == args[i]);
        lemma_count_remove(args.drop_last(), keys, i);
    }
}

/// A flag given `n` times is found, and taken out, by exactly `n` calls of
/// `contains`: a call finds the flag exactly when some argument is one of the
/// keys, and a call that finds it leaves one such argument fewer.
pub proof fn lemma_contains_consumes(args: Seq<Seq<u8>>, keys: Keys)
    ensures
        spec_index_of(args, keys) is Some <==> count_matching(args, keys) > 0,
        spec_index_of(args, keys) matches Some((i, _)) ==> count_matching(args.remove(i), keys)
            + 1 == count_matching(args, keys),
{
    let short = encode_utf8(keys.short_key()@);
    let long = encode_utf8(keys.long_key()@);
    args.index_of_first_ensures(short);
    args.index_of_first_ensures(long);
    lemma_count_zero(args, keys);
    match spec_index_of(args, keys) {
        Some((i, _)) => {
            assert(matches_keys(args[i], keys));
            lemma_count_remove(args, keys, i);
        },
        None => {
            assert forall|j: int| 0 <= j < args.len() implies !matches_keys(#[trigger] args[j], keys) by {
                if keys.short_key()@.len() > 0 {
                    assert(!args.contains(short));
                }
                if keys.long_key()@.len() > 0 {
                    assert(!args.contains(long));
                }
            }
        },
    }
}

/// The arguments after `n` calls of `contains` with `keys`: each call that
/// finds the flag takes out its first occurrence, the short key looked for
/// first; a call that does not find it leaves the arguments as they are.
pub open spec fn after_flags(args: Seq<Seq<u8>>, keys: Keys, n: nat) -> Seq<Seq<u8>>
    decreases n,
{
    if n == 0 {
        args
    } else {
        let prev = after_flags(args, keys, (n - 1) as nat);
        match spec_index_of(prev, keys) {
            Some((i, _)) => prev.remove(i),
            None => prev,
        }
    }
}

/// Of repeated calls of `contains`, exactly the first `n` find the flag, where
/// `n` arguments are one of the keys: after `j` calls, `n - j` such arguments
/// are left (none once `j >= n`), and the next call finds one exactly when
/// `j < n`.
pub proof fn lemma_contains_repeated(args: Seq<Seq<u8>>, keys: Keys, j: nat)
    ensures
        count_matching(after_flags(args, keys, j), keys) == if j <= count_matching(args, keys) {
            count_matching(args, keys) - j
        } else {
            0
        },
        spec_index_of(after_flags(args, keys, j), keys) is Some <==> j < count_matching(
            args,
            keys,
        ),
    decreases j,
{
    if j > 0 {
        lemma_contains_repeated(args, keys, (j - 1) as nat);
        lemma_contains_consumes(after_flags(args, keys, (j - 1) as nat), keys);
    }
    lemma_contains_consumes(after_flags(args, keys, j), keys);
}

} // verus!
