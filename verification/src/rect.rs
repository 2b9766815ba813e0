//! Axis-aligned rectangles and the two guillotine splits.
//!
//! A rectangle is held by its four edge coordinates in integer canvas units,
//! so every split is exact: a cut at a coordinate strictly inside the parent
//! yields two children that share that edge, tile the parent without gap or
//! overlap, and have strictly positive extent. The center/size pair of the
//! rendered quad is recovered from the edges by the host shell.

use crate::palette::PaletteColor;
use vstd::prelude::*;

verus! {

/// One rectangle of a partition: edge coordinates and a palette color.
#[derive(Clone, Copy, Debug, PartialEq, Eq, Structural)]
pub struct Rect {
    pub left: i64,
    pub right: i64,
    pub bottom: i64,
    pub top: i64,
    pub color: PaletteColor,
}

impl Rect {
    /// A rectangle is well-formed when both extents are strictly positive.
    pub open spec fn is_wf(self) -> bool {
        self.left < self.right && self.bottom < self.top
    }

    pub open spec fn width(self) -> int {
        self.right - self.left
    }

    pub open spec fn height(self) -> int {
        self.top - self.bottom
    }

    pub open spec fn area(self) -> int {
        self.width() * self.height()
    }

    /// `other` lies fully inside the bounds of `self`.
    pub open spec fn contains_rect(self, other: Rect) -> bool {
        self.left <= other.left && other.right <= self.right && self.bottom <= other.bottom
            && other.top <= self.top
    }

    /// The open interiors of `self` and `other` do not intersect.
    pub open spec fn disjoint_from(self, other: Rect) -> bool {
        self.right <= other.left || other.right <= self.left || self.top <= other.bottom
            || other.top <= self.bottom
    }

    /// Same position and size; the color may differ.
    pub open spec fn same_geometry(self, other: Rect) -> bool {
        self.left == other.left && self.right == other.right && self.bottom == other.bottom
            && self.top == other.top
    }

    /// `x` falls strictly inside the horizontal span of `self`.
    pub open spec fn x_strictly_inside(self, x: i64) -> bool {
        self.left < x && x < self.right
    }

    /// `y` falls strictly inside the vertical span of `self`.
    pub open spec fn y_strictly_inside(self, y: i64) -> bool {
        self.bottom < y && y < self.top
    }
}

/// The pair a vertical cut at `locus` makes of `r`: the left child first,
/// then the right child, both white.
pub open spec fn spec_split_on_x(r: Rect, locus: i64) -> Seq<Rect> {
    seq![
        Rect {
            left: r.left,
            right: locus,
            bottom: r.bottom,
            top: r.top,
            color: PaletteColor::White,
        },
        Rect {
            left: locus,
            right: r.right,
            bottom: r.bottom,
            top: r.top,
            color: PaletteColor::White,
        },
    ]
}

/// The pair a horizontal cut at `locus` makes of `r`: the top child first,
/// then the bottom child, both white.
pub open spec fn spec_split_on_y(r: Rect, locus: i64) -> Seq<Rect> {
    seq![
        Rect {
            left: r.left,
            right: r.right,
            bottom: locus,
            top: r.top,
            color: PaletteColor::White,
        },
        Rect {
            left: r.left,
            right: r.right,
            bottom: r.bottom,
            top: locus,
            color: PaletteColor::White,
        },
    ]
}

/// Split `r` by a vertical cut at `locus`, yielding the left and the right
/// child. The children tile `r` exactly: see `lemma_split_on_x_tiles`.
pub fn split_on_x(r: &Rect, locus: i64) -> (children: Vec<Rect>)
    requires
        r.x_strictly_inside(locus),
    ensures
        children@ == spec_split_on_x(*r, locus),
{
    let lhs = Rect { left: r.left, right: locus, bottom: r.bottom, top: r.top, color: PaletteColor::White };
    let rhs = Rect { left: locus, right: r.right, bottom: r.bottom, top: r.top, color: PaletteColor::White };
    let mut children: Vec<Rect> = Vec::new();
    children.push(lhs);
    children.push(rhs);
    proof {
        assert(children@ =~= spec_split_on_x(*r, locus));
    }
    children
}

/// Split `r` by a horizontal cut at `locus`, yielding the top and the bottom
/// child. The children tile `r` exactly: see `lemma_split_on_y_tiles`.
pub fn split_on_y(r: &Rect, locus: i64) -> (children: Vec<Rect>)
    requires
        r.y_strictly_inside(locus),
    ensures
        children@ == spec_split_on_y(*r, locus),
{
    let upper = Rect { left: r.left, right: r.right, bottom: locus, top: r.top, color: PaletteColor::White };
    let lower = Rect { left: r.left, right: r.right, bottom: r.bottom, top: locus, color: PaletteColor::White };
    let mut children: Vec<Rect> = Vec::new();
    children.push(upper);
    children.push(lower);
    proof {
        assert(children@ =~= spec_split_on_y(*r, locus));
    }
    children
}

/// Rectangles inside two disjoint rectangles are themselves disjoint.
pub proof fn lemma_contained_disjoint(pa: Rect, pb: Rect, a: Rect, b: Rect)
    requires
        pa.contains_rect(a),
        pb.contains_rect(b),
        pa.disjoint_from(pb),
    ensures
        a.disjoint_from(b),
        b.disjoint_from(a),
{
}

/// Containment law for a vertical split: a cut strictly inside the parent's
/// horizontal span makes exactly two well-formed white children that lie
/// inside the parent, share the cut edge without gap or overlap, keep the
/// parent's height, have widths that sum to the parent's width, and have
/// areas that sum exactly to the parent's area.
pub proof fn lemma_split_on_x_tiles(r: Rect, locus: i64)
    requires
        r.is_wf(),
        r.x_strictly_inside(locus),
    ensures
        spec_split_on_x(r, locus).len() == 2,
        spec_split_on_x(r, locus)[0].is_wf(),
        spec_split_on_x(r, locus)[1].is_wf(),
        r.contains_rect(spec_split_on_x(r, locus)[0]),
        r.contains_rect(spec_split_on_x(r, locus)[1]),
        spec_split_on_x(r, locus)[0].disjoint_from(spec_split_on_x(r, locus)[1]),
        spec_split_on_x(r, locus)[0].left == r.left,
        spec_split_on_x(r, locus)[0].right == spec_split_on_x(r, locus)[1].left,
        spec_split_on_x(r, locus)[1].right == r.right,
        spec_split_on_x(r, locus)[0].height() == r.height(),
        spec_split_on_x(r, locus)[1].height() == r.height(),
        spec_split_on_x(r, locus)[0].width() + spec_split_on_x(r, locus)[1].width() == r.width(),
        spec_split_on_x(r, locus)[0].area() + spec_split_on_x(r, locus)[1].area() == r.area(),
        spec_split_on_x(r, locus)[0].color == PaletteColor::White,
        spec_split_on_x(r, locus)[1].color == PaletteColor::White,
{
    let a = spec_split_on_x(r, locus)[0];
    let b = spec_split_on_x(r, locus)[1];
    assert(a.area() + b.area() == r.area()) by (nonlinear_arith)
        requires
            a.area() == (locus - r.left) * (r.top - r.bottom),
            b.area() == (r.right - locus) * (r.top - r.bottom),
            r.area() == (r.right - r.left) * (r.top - r.bottom),
    ;
}

/// Containment law for a horizontal split, the mirror image of
/// `lemma_split_on_x_tiles`.
pub proof fn lemma_split_on_y_tiles(r: Rect, locus: i64)
    requires
        r.is_wf(),
        r.y_strictly_inside(locus),
    ensures
        spec_split_on_y(r, locus).len() == 2,
        spec_split_on_y(r, locus)[0].is_wf(),
        spec_split_on_y(r, locus)[1].is_wf(),
        r.contains_rect(spec_split_on_y(r, locus)[0]),
        r.contains_rect(spec_split_on_y(r, locus)[1]),
        spec_split_on_y(r, locus)[0].disjoint_from(spec_split_on_y(r, locus)[1]),
        spec_split_on_y(r, locus)[1].bottom == r.bottom,
        spec_split_on_y(r, locus)[1].top == spec_split_on_y(r, locus)[0].bottom,
        spec_split_on_y(r, locus)[0].top == r.top,
        spec_split_on_y(r, locus)[0].width() == r.width(),
        spec_split_on_y(r, locus)[1].width() == r.width(),
        spec_split_on_y(r, locus)[0].height() + spec_split_on_y(r, locus)[1].height() == r.height(),
        spec_split_on_y(r, locus)[0].area() + spec_split_on_y(r, locus)[1].area() == r.area(),
        spec_split_on_y(r, locus)[0].color == PaletteColor::White,
        spec_split_on_y(r, locus)[1].color == PaletteColor::White,
{
    let a = spec_split_on_y(r, locus)[0];
    let b = spec_split_on_y(r, locus)[1];
    assert(a.area() + b.area() == r.area()) by (nonlinear_arith)
        requires
            a.area() == (r.right - r.left) * (r.top - locus),
            b.area() == (r.right - r.left) * (locus - r.bottom),
            r.area() == (r.right - r.left) * (r.top - r.bottom),
    ;
}

} // verus!
