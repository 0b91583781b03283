//! The plan's data: drawing tools, walls, and the planar point types of `egui`
//! that walls are made of.

use vstd::prelude::*;

verus! {

/// A point of the plan, in world units. Its coordinates are floating point
/// numbers and are never inspected by the verified code: points are only
/// stored, copied, compared by the trusted test below, and handed to the
/// caller's own operations.
#[verifier::external_type_specification]
#[verifier::external_body]
pub struct ExPos2(egui::Pos2);

/// An axis-aligned rectangle of the plan (the rubber band of the selection).
#[verifier::external_type_specification]
#[verifier::external_body]
pub struct ExRect(egui::Rect);

/// The tool that the pointer works with.
#[derive(PartialEq, Eq, Structural, Clone, Copy, Debug)]
pub enum Tool {
    Select,
    DrawWall,
}

/// A straight wall between two points.
#[derive(Clone, Copy)]
pub struct Wall {
    pub start: egui::Pos2,
    pub end: egui::Pos2,
}

/// What `egui::Rect::contains(&r, p)` returns: whether `p` lies in `r`,
/// borders included. It depends on the rectangle and the point alone.
pub uninterp spec fn rect_holds(r: egui::Rect, p: egui::Pos2) -> bool;

/// The corner `r.min` of a rectangle (its field `min`).
pub uninterp spec fn min_corner(r: egui::Rect) -> egui::Pos2;

/// Calls `egui::Rect::contains`; its result is `rect_holds(*r, p)`.
#[verifier::external_body]
pub(crate) fn rect_contains(r: &egui::Rect, p: egui::Pos2) -> (b: bool)
    ensures
        b == rect_holds(*r, p),
{
    r.contains(p)
}

/// Reads the field `min` of an `egui::Rect`; the result is `min_corner(*r)`.
#[verifier::external_body]
pub(crate) fn rect_min(r: &egui::Rect) -> (p: egui::Pos2)
    ensures
        p == min_corner(*r),
{
    r.min
}

} // verus!
