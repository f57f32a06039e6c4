//! Game inputs, sets of inputs, and switching between two input devices.
use crate::demo::{decimal, spec_decimal};
use crate::text_utils::{ascii_chars, ascii_to_string};
use std::borrow::Cow;
use vstd::prelude::*;
use vstd::string::StringExecFns;

verus! {

/// A button the player can hold down.
#[derive(Clone, Copy, Debug, PartialEq, Eq, Structural)]
pub enum Input {
    Left,
    Right,
    Shoot,
}

/// A set of [`Input`]s.
#[derive(Clone, Copy, Debug, PartialEq, Eq, Structural)]
pub struct InputSet {
    left: bool,
    right: bool,
    shoot: bool,
}

impl View for InputSet {
    type V = Set<Input>;

    closed spec fn view(&self) -> Set<Input> {
        Set::new(
            |i: Input|
                match i {
                    Input::Left => self.left,
                    Input::Right => self.right,
                    Input::Shoot => self.shoot,
                },
        )
    }
}

impl InputSet {
    /// The empty set.
    pub fn new() -> (s: InputSet)
        ensures
            s@ == Set::<Input>::empty(),
    {
        let s = InputSet { left: false, right: false, shoot: false };
        assert(s@ =~= Set::<Input>::empty());
        s
    }

    /// The set of all inputs.
    pub fn all() -> (s: InputSet)
        ensures
            s@ == Set::<Input>::full(),
    {
        let s = InputSet { left: true, right: true, shoot: true };
        assert(s@ =~= Set::<Input>::full());
        s
    }

    pub fn contains(&self, input: Input) -> (r: bool)
        ensures
            r == self@.contains(input),
    {
        match input {
            Input::Left => self.left,
            Input::Right => self.right,
            Input::Shoot => self.shoot,
        }
    }

    pub fn insert(&mut self, input: Input)
        ensures
            final(self)@ == old(self)@.insert(input),
    {
        match input {
            Input::Left => self.left = true,
            Input::Right => self.right = true,
            Input::Shoot => self.shoot = true,
        }
        assert(self@ =~= old(self)@.insert(input));
    }

    pub fn remove(&mut self, input: Input)
        ensures
            final(self)@ == old(self)@.remove(input),
    {
        match input {
            Input::Left => self.left = false,
            Input::Right => self.right = false,
            Input::Shoot => self.shoot = false,
        }
        assert(self@ =~= old(self)@.remove(input));
    }

    /// The inputs in either set.
    pub fn union(self, other: InputSet) -> (s: InputSet)
        ensures
            s@ == self@.union(other@),
    {
        let s = InputSet {
            left: self.left || other.left,
            right: self.right || other.right,
            shoot: self.shoot || other.shoot,
        };
        assert(s@ =~= self@.union(other@));
        s
    }

    /// The inputs in `self` but not in `other`.
    pub fn difference(self, other: InputSet) -> (s: InputSet)
        ensures
            s@ == self@.difference(other@),
    {
        let s = InputSet {
            left: self.left && !other.left,
            right: self.right && !other.right,
            shoot: self.shoot && !other.shoot,
        };
        assert(s@ =~= self@.difference(other@));
        s
    }
}

/// Plays a first input device up to a threshold update, and a second one from
/// then on; used to play back a demo movie and then record.
pub struct ComposedInput<A, B> {
    first: A,
    second: B,
    names: (Cow<'static, str>, Cow<'static, str>),
    threshold_update: u64,
    current_update: u64,
}

impl<A, B> ComposedInput<A, B> {
    /// `threshold_update` is the *first update number* on which (and after which)
    /// the second input device will be used.
    pub fn new(
        first: A,
        second: B,
        threshold_update: u64,
        names: (Cow<'static, str>, Cow<'static, str>),
    ) -> (c: ComposedInput<A, B>)
        ensures
            c.first() == first,
            c.second() == second,
            c.threshold_update() == threshold_update,
            c.current_update() == 0,
            c.names() == names,
    {
        ComposedInput { first, second, threshold_update, names, current_update: 0 }
    }

    pub closed spec fn first(&self) -> A {
        self.first
    }

    pub closed spec fn second(&self) -> B {
        self.second
    }

    pub closed spec fn names(&self) -> (Cow<'static, str>, Cow<'static, str>) {
        self.names
    }

    pub closed spec fn threshold_update(&self) -> u64 {
        self.threshold_update
    }

    pub closed spec fn current_update(&self) -> u64 {
        self.current_update
    }

    /// Whether the second device gets the next update: the number of updates
    /// begun so far has reached the threshold.
    pub open spec fn spec_uses_second(&self) -> bool {
        self.current_update() >= self.threshold_update()
    }

    /// Whether the second device answers queries: the update in progress, the
    /// one begun last (number `current_update() - 1`), went to the second device.
    /// Before the first update, the first device answers.
    pub open spec fn spec_queries_second(&self) -> bool {
        self.current_update() > self.threshold_update()
    }

    pub fn into_inner(self) -> (r: (A, B))
        ensures
            r == (self.first(), self.second()),
    {
        (self.first, self.second)
    }

    /// The current update.
    pub fn update_number(&self) -> (r: u64)
        ensures
            r == self.current_update(),
    {
        self.current_update
    }

    /// Queries go to the device that got the update in progress: one update
    /// after the second device was due to get the next update, it answers
    /// queries, and otherwise the first device does.
    pub proof fn lemma_queries_follow_updates(before: Self, after: Self)
        requires
            after.current_update() == before.current_update() + 1,
            after.threshold_update() == before.threshold_update(),
        ensures
            after.spec_queries_second() == before.spec_uses_second(),
    {
    }

    /// Whether the second device answers queries (inputs held, look angle,
    /// description) during the update in progress.
    pub fn queries_second(&self) -> (r: bool)
        ensures
            r == self.spec_queries_second(),
    {
        self.current_update > self.threshold_update
    }

    /// Whether the second device gets the next update.
    pub fn uses_second(&self) -> (r: bool)
        ensures
            r == self.spec_uses_second(),
    {
        self.current_update >= self.threshold_update
    }

    pub fn first_ref(&self) -> (r: &A)
        ensures
            *r == self.first(),
    {
        &self.first
    }

    pub fn second_ref(&self) -> (r: &B)
        ensures
            *r == self.second(),
    {
        &self.second
    }

    pub fn first_mut(&mut self) -> (r: &mut A)
        ensures
            *r == old(self).first(),
            final(self).first() == *final(r),
            final(self).second() == old(self).second(),
            final(self).names() == old(self).names(),
            final(self).threshold_update() == old(self).threshold_update(),
            final(self).current_update() == old(self).current_update(),
    {
        &mut self.first
    }

    pub fn second_mut(&mut self) -> (r: &mut B)
        ensures
            *r == old(self).second(),
            final(self).second() == *final(r),
            final(self).first() == old(self).first(),
            final(self).names() == old(self).names(),
            final(self).threshold_update() == old(self).threshold_update(),
            final(self).current_update() == old(self).current_update(),
    {
        &mut self.second
    }

    /// How the devices are described: the name and description of the device
    /// that answers queries, and, while that is the first one, a countdown to
    /// the switch when it is at most 1200 updates away.
    pub open spec fn spec_describe(&self, active_info: Seq<char>) -> Seq<char> {
        if self.spec_queries_second() {
            self.names().1@ + " ("@ + active_info + ")"@
        } else {
            let diff = (self.threshold_update() - self.current_update()) as u64;
            if diff <= 1200 {
                self.names().0@ + " ("@ + active_info + ") [switching in "@ + ascii_chars(
                    spec_decimal(diff),
                ) + " updates]"@
            } else {
                self.names().0@ + " ("@ + active_info + ")"@
            }
        }
    }

    /// Describes the devices; `active_info` describes the device that answers
    /// queries.
    pub fn describe(&self, active_info: &str) -> (r: String)
        ensures
            r@ == self.spec_describe(active_info@),
    {
        let mut r = String::new();
        if self.current_update > self.threshold_update {
            r.append(cow_str(&self.names.1));
            r.append(" (");
            r.append(active_info);
            r.append(")");
        } else {
            let diff = self.threshold_update - self.current_update;
            r.append(cow_str(&self.names.0));
            r.append(" (");
            r.append(active_info);
            if diff <= 1200 {
                let digits = decimal(diff);
                proof {
                    crate::demo_laws::lemma_decimal_roundtrip(diff);
                }
                r.append(") [switching in ");
                r.append(ascii_to_string(digits.as_slice()).as_str());
                r.append(" updates]");
            } else {
                r.append(")");
            }
        }
        r
    }

    /// Moves on to the next update, after the device in charge has moved on.
    pub fn advance(&mut self)
        requires
            old(self).current_update() < u64::MAX,
        ensures
            final(self).current_update() == old(self).current_update() + 1,
            final(self).threshold_update() == old(self).threshold_update(),
            final(self).first() == old(self).first(),
            final(self).second() == old(self).second(),
            final(self).names() == old(self).names(),
    {
        self.current_update = self.current_update + 1;
    }

    /// Begins the next update: says whether it goes to the second device
    /// (exactly when the threshold has been reached) and moves on. The device
    /// named is the one that answers queries until the next update begins.
    pub fn begin_update(&mut self) -> (second: bool)
        requires
            old(self).current_update() < u64::MAX,
        ensures
            second == old(self).spec_uses_second(),
            second == final(self).spec_queries_second(),
            final(self).current_update() == old(self).current_update() + 1,
            final(self).threshold_update() == old(self).threshold_update(),
            final(self).first() == old(self).first(),
            final(self).second() == old(self).second(),
            final(self).names() == old(self).names(),
    {
        let second = self.current_update >= self.threshold_update;
        self.current_update = self.current_update + 1;
        second
    }
}

/// How many of the updates `0..k` go to the second device when it takes over
/// at update `t`.
pub open spec fn updates_to_second(t: int, k: int) -> int
    decreases k,
{
    if k <= 0 {
        0
    } else {
        updates_to_second(t, k - 1) + if k - 1 >= t {
            1int
        } else {
            0int
        }
    }
}

/// Of the first `k` updates, the first device gets the first `min(k, t)` and
/// the second device the other `k - min(k, t)`.
pub proof fn lemma_updates_split(t: nat, k: nat)
    ensures
        updates_to_second(t as int, k as int) == if k <= t {
            0
        } else {
            k - t
        },
    decreases k,
{
    if k > 0 {
        lemma_updates_split(t, (k - 1) as nat);
    }
}

/// The text of a `Cow` string.
pub fn cow_str<'a>(c: &'a Cow<'static, str>) -> (r: &'a str)
    ensures
        r@ == c@,
{
    match c {
        Cow::Borrowed(s) => s,
        Cow::Owned(o) => o.as_str(),
    }
}

} // verus!
