//! A "raw level" is a kind of a "data transfer object", a dumb data structure that
//! represents the things that make up a level. Parsing a level file produces a
//! [`RawLevel`], which the game then turns into a real level.
//!
//! Coordinates are kept as the IEEE-754 binary32 bit patterns that the level file
//! stores; whoever draws or simulates the level reinterprets them as floats.
use crate::levels::{SpecTriggerKind, TriggerKind};
use vstd::prelude::*;

verus! {

/// A 2D vector whose coordinates are IEEE-754 binary32 bit patterns.
#[derive(Copy, Clone, Debug, PartialEq, Eq, Structural)]
pub struct PointBits {
    pub x: u32,
    pub y: u32,
}

#[derive(Clone, Debug, PartialEq)]
pub enum Shape {
    Rect { pos: PointBits, size: PointBits },
    Polygon(Vec<PointBits>),
}

/// The mathematical value of a [`Shape`].
pub enum SpecShape {
    Rect { pos: PointBits, size: PointBits },
    Polygon(Seq<PointBits>),
}

impl View for Shape {
    type V = SpecShape;

    open spec fn view(&self) -> SpecShape {
        match self {
            Shape::Rect { pos, size } => SpecShape::Rect { pos: *pos, size: *size },
            Shape::Polygon(points) => SpecShape::Polygon(points@),
        }
    }
}

#[derive(Clone, Debug, PartialEq)]
pub struct Graphic {
    pub shape: Shape,
    pub texture: String,
}

/// The mathematical value of a [`Graphic`].
pub struct SpecGraphic {
    pub shape: SpecShape,
    pub texture: Seq<char>,
}

impl View for Graphic {
    type V = SpecGraphic;

    open spec fn view(&self) -> SpecGraphic {
        SpecGraphic { shape: self.shape@, texture: self.texture@ }
    }
}

#[derive(Clone, Debug, PartialEq)]
pub struct Trigger {
    pub shape: Shape,
    pub kind: TriggerKind,
}

/// The mathematical value of a [`Trigger`].
pub struct SpecTrigger {
    pub shape: SpecShape,
    pub kind: SpecTriggerKind,
}

impl View for Trigger {
    type V = SpecTrigger;

    open spec fn view(&self) -> SpecTrigger {
        SpecTrigger { shape: self.shape@, kind: self.kind@ }
    }
}

#[derive(Clone, Debug, PartialEq)]
pub struct RawLevel {
    pub start_pos: PointBits,
    pub graphics: Vec<Graphic>,
    pub colliders: Vec<Shape>,
    pub triggers: Vec<Trigger>,
}

/// The mathematical value of a [`RawLevel`].
pub struct SpecRawLevel {
    pub start_pos: PointBits,
    pub graphics: Seq<SpecGraphic>,
    pub colliders: Seq<SpecShape>,
    pub triggers: Seq<SpecTrigger>,
}

impl View for RawLevel {
    type V = SpecRawLevel;

    open spec fn view(&self) -> SpecRawLevel {
        SpecRawLevel {
            start_pos: self.start_pos,
            graphics: graphic_views(self.graphics@),
            colliders: shape_views(self.colliders@),
            triggers: trigger_views(self.triggers@),
        }
    }
}

pub open spec fn shape_views(v: Seq<Shape>) -> Seq<SpecShape> {
    v.map_values(|s: Shape| s@)
}

pub open spec fn graphic_views(v: Seq<Graphic>) -> Seq<SpecGraphic> {
    v.map_values(|g: Graphic| g@)
}

pub open spec fn trigger_views(v: Seq<Trigger>) -> Seq<SpecTrigger> {
    v.map_values(|t: Trigger| t@)
}

} // verus!
