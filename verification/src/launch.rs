//! What the game starts with: which level, and which demo movie, if any,
//! drives the input. The native build reads these from its command line, the
//! browser build from the page's URL fragment.
use vstd::prelude::*;
use crate::text_utils::{find_pattern, first_occurrence, starts_with, str_chars, string_from_chars};

verus! {

/// Which bundled level to play.
#[derive(Clone, Copy, Debug, PartialEq, Eq, Structural, Default)]
pub enum LevelSource {
    #[default]
    Default,
    New,
    Big,
}

/// The name of a level source on the command line.
pub open spec fn level_source_name(level: LevelSource) -> Seq<char> {
    match level {
        LevelSource::Default => seq!['d', 'e', 'f', 'a', 'u', 'l', 't'],
        LevelSource::New => seq!['n', 'e', 'w'],
        LevelSource::Big => seq!['b', 'i', 'g'],
    }
}

impl LevelSource {
    /// Every level source, in the order the command line lists them.
    pub fn all() -> (r: Vec<LevelSource>)
        ensures
            r@ == seq![LevelSource::Default, LevelSource::New, LevelSource::Big],
    {
        let r = vec![LevelSource::Default, LevelSource::New, LevelSource::Big];
        assert(r@ =~= seq![LevelSource::Default, LevelSource::New, LevelSource::Big]);
        r
    }

    /// The level source's name on the command line.
    pub fn name(&self) -> (r: String)
        ensures
            r@ == level_source_name(*self),
    {
        let chars: Vec<char> = match self {
            LevelSource::Default => vec!['d', 'e', 'f', 'a', 'u', 'l', 't'],
            LevelSource::New => vec!['n', 'e', 'w'],
            LevelSource::Big => vec!['b', 'i', 'g'],
        };
        assert(chars@ =~= level_source_name(*self));
        string_from_chars(chars.as_slice())
    }
}

/// Where a demo movie comes from.
#[derive(Clone, Debug, PartialEq, Eq)]
pub enum DemoSource {
    /// The bundled movie that plays the default level.
    Default,
    /// The bundled movie that plays the new level.
    NewLevelDemo,
    /// A movie without actions.
    Empty,
    /// A movie in a file, by its path.
    File(Vec<u8>),
}

/// A demo movie that drives the input, and the update up to which the game
/// skips ahead.
#[derive(Clone, Debug, PartialEq, Eq)]
pub struct InputDemo {
    pub source: DemoSource,
    pub skip_until_update: u64,
}

/// The bundled movie that goes with a level; the big level has none.
pub open spec fn spec_bundled_demo_for(level: LevelSource) -> DemoSource {
    match level {
        LevelSource::Default => DemoSource::Default,
        LevelSource::New => DemoSource::NewLevelDemo,
        LevelSource::Big => DemoSource::Empty,
    }
}

/// The bundled movie that goes with a level.
pub fn bundled_demo_for(level: LevelSource) -> (r: DemoSource)
    ensures
        r == spec_bundled_demo_for(level),
{
    match level {
        LevelSource::Default => DemoSource::Default,
        LevelSource::New => DemoSource::NewLevelDemo,
        LevelSource::Big => DemoSource::Empty,
    }
}

/// The argument that asks for the bundled movie of the level: `@default`.
pub open spec fn default_demo_arg() -> Seq<u8> {
    seq![64u8, 100u8, 101u8, 102u8, 97u8, 117u8, 108u8, 116u8]
}

/// The movie that a `--read-demo` argument names: `@default` names the bundled
/// movie of the level, anything else the file at that path.
pub fn demo_source_for_arg(arg: Vec<u8>, level: LevelSource) -> (r: DemoSource)
    ensures
        arg@ == default_demo_arg() ==> r == spec_bundled_demo_for(level),
        arg@ != default_demo_arg() ==> (r matches DemoSource::File(path) && path@ == arg@),
{
    let default_arg: [u8; 8] = [64u8, 100u8, 101u8, 102u8, 97u8, 117u8, 108u8, 116u8];
    assert(default_arg@ =~= default_demo_arg());
    if arg.len() == 8 && starts_with(arg.as_slice(), default_arg.as_slice()) {
        assert(arg@ =~= arg@.take(8));
        bundled_demo_for(level)
    } else {
        proof {
            if arg@ == default_demo_arg() {
                assert(arg@.take(8) =~= arg@);
            }
        }
        DemoSource::File(arg)
    }
}

/// Whether `pat` occurs in `s`.
pub open spec fn contains_text(s: Seq<char>, pat: Seq<char>) -> bool {
    first_occurrence(s, pat) is Some
}

/// The level that a URL fragment asks for: `new` in it asks for the new level,
/// else `big` for the big one, else the default level.
pub open spec fn spec_level_from_fragment(fragment: Seq<char>) -> LevelSource {
    if contains_text(fragment, seq!['n', 'e', 'w']) {
        LevelSource::New
    } else if contains_text(fragment, seq!['b', 'i', 'g']) {
        LevelSource::Big
    } else {
        LevelSource::Default
    }
}

/// Whether a URL fragment asks for the demo: it holds `demo`.
pub open spec fn spec_fragment_wants_demo(fragment: Seq<char>) -> bool {
    contains_text(fragment, seq!['d', 'e', 'm', 'o'])
}

/// What the browser build starts with, from its page's URL fragment: the
/// level it asks for and, where it asks for the demo, the bundled movie of
/// that level, played from the start.
pub fn launch_from_url_fragment(fragment: &str) -> (r: (LevelSource, Option<InputDemo>))
    ensures
        r.0 == spec_level_from_fragment(fragment@),
        spec_fragment_wants_demo(fragment@) ==> r.1 == Some(
            InputDemo { source: spec_bundled_demo_for(r.0), skip_until_update: 0 },
        ),
        !spec_fragment_wants_demo(fragment@) ==> r.1 is None,
{
    let chars = str_chars(fragment);
    let new_pat = ['n', 'e', 'w'];
    let big_pat = ['b', 'i', 'g'];
    let demo_pat = ['d', 'e', 'm', 'o'];
    assert(new_pat@ =~= seq!['n', 'e', 'w']);
    assert(big_pat@ =~= seq!['b', 'i', 'g']);
    assert(demo_pat@ =~= seq!['d', 'e', 'm', 'o']);
    let level = if find_pattern(chars.as_slice(), new_pat.as_slice()).is_some() {
        LevelSource::New
    } else if find_pattern(chars.as_slice(), big_pat.as_slice()).is_some() {
        LevelSource::Big
    } else {
        LevelSource::Default
    };
    let demo = if find_pattern(chars.as_slice(), demo_pat.as_slice()).is_some() {
        Some(InputDemo { source: bundled_demo_for(level), skip_until_update: 0 })
    } else {
        None
    };
    (level, demo)
}

} // verus!
