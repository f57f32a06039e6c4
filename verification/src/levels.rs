//! Kinds of level triggers, as the level format describes them.
use crate::raw_level::PointBits;
use vstd::prelude::*;

verus! {

/// The icon shown next to the penguin after a `Goto` trigger.
#[derive(Copy, Clone, Debug, PartialEq, Eq, Structural)]
pub enum StatusIcon {
    Wrong,
    Nice,
}

/// What happens when the penguin touches a trigger.
#[derive(Debug, Clone, PartialEq)]
pub enum TriggerKind {
    Panic,
    Hello,
    ShowText(String),
    SetEyepatch(bool),
    Goto(PointBits, StatusIcon),
}

/// The mathematical value of a [`TriggerKind`].
pub enum SpecTriggerKind {
    Panic,
    Hello,
    ShowText(Seq<char>),
    SetEyepatch(bool),
    Goto(PointBits, StatusIcon),
}

impl View for TriggerKind {
    type V = SpecTriggerKind;

    open spec fn view(&self) -> SpecTriggerKind {
        match self {
            TriggerKind::Panic => SpecTriggerKind::Panic,
            TriggerKind::Hello => SpecTriggerKind::Hello,
            TriggerKind::ShowText(s) => SpecTriggerKind::ShowText(s@),
            TriggerKind::SetEyepatch(b) => SpecTriggerKind::SetEyepatch(*b),
            TriggerKind::Goto(p, icon) => SpecTriggerKind::Goto(*p, *icon),
        }
    }
}

} // verus!
