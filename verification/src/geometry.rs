use vstd::prelude::*;

verus! {

/// Fixed-point denominator for normalized coordinates and confidences: a
/// stored value `v` stands for the real number `v / COORD_SCALE`, so the
/// normalized range `[0, 1]` is stored as `[0, COORD_SCALE]`.
pub const COORD_SCALE: i64 = 1_000_000;

/// An axis-aligned box with normalized corner coordinates, top-left and
/// bottom-right, each scaled by [`COORD_SCALE`]. The box carries no tag for
/// the frame it is normalized against; callers track that out-of-band.
#[derive(Clone, Copy, PartialEq, Eq, Structural, Debug)]
pub struct BoundingBox {
    pub x_tl: i64,
    pub y_tl: i64,
    pub x_br: i64,
    pub y_br: i64,
}

impl BoundingBox {
    /// Every coordinate lies in the normalized range, i.e. in
    /// `[0, COORD_SCALE]`. Inverted corners are allowed: such a box is
    /// degenerate and has area zero.
    pub open spec fn wf(self) -> bool {
        &&& 0 <= self.x_tl <= COORD_SCALE
        &&& 0 <= self.y_tl <= COORD_SCALE
        &&& 0 <= self.x_br <= COORD_SCALE
        &&& 0 <= self.y_br <= COORD_SCALE
    }
}

/// The exact area enclosed by a box, in squared coordinate units: the
/// product of the two side lengths, or zero when either side is negative
/// (inverted corners).
pub open spec fn spec_area(b: BoundingBox) -> int {
    let dx = b.x_br - b.x_tl;
    let dy = b.y_br - b.y_tl;
    if dx < 0 || dy < 0 {
        0
    } else {
        dx * dy
    }
}

pub open spec fn spec_max(a: int, b: int) -> int {
    if a >= b {
        a
    } else {
        b
    }
}

pub open spec fn spec_min(a: int, b: int) -> int {
    if a <= b {
        a
    } else {
        b
    }
}

/// The overlap of two boxes: the greater of the top-left corners paired
/// with the lesser of the bottom-right corners. When the boxes do not
/// overlap the corners come out inverted and the overlap area is zero.
pub open spec fn spec_overlap_box(a: BoundingBox, b: BoundingBox) -> BoundingBox {
    BoundingBox {
        x_tl: spec_max(a.x_tl as int, b.x_tl as int) as i64,
        y_tl: spec_max(a.y_tl as int, b.y_tl as int) as i64,
        x_br: spec_min(a.x_br as int, b.x_br as int) as i64,
        y_br: spec_min(a.y_br as int, b.y_br as int) as i64,
    }
}

pub open spec fn spec_overlap_area(a: BoundingBox, b: BoundingBox) -> int {
    spec_area(spec_overlap_box(a, b))
}

/// Area covered by at least one of the two boxes.
pub open spec fn spec_union_area(a: BoundingBox, b: BoundingBox) -> int {
    spec_area(a) + spec_area(b) - spec_overlap_area(a, b)
}

/// Numerator of the intersection-over-union ratio. When both boxes are
/// degenerate the union is empty and the ratio is defined as exactly zero.
pub open spec fn spec_iou_num(a: BoundingBox, b: BoundingBox) -> int {
    if spec_union_area(a, b) == 0 {
        0
    } else {
        spec_overlap_area(a, b)
    }
}

/// Denominator of the intersection-over-union ratio; always at least one.
pub open spec fn spec_iou_den(a: BoundingBox, b: BoundingBox) -> int {
    if spec_union_area(a, b) == 0 {
        1
    } else {
        spec_union_area(a, b)
    }
}

/// Whether the intersection-over-union of the two boxes is strictly greater
/// than the threshold `max_iou / COORD_SCALE`.
pub open spec fn spec_iou_exceeds(a: BoundingBox, b: BoundingBox, max_iou: int) -> bool {
    spec_iou_num(a, b) * COORD_SCALE > max_iou * spec_iou_den(a, b)
}

/// The intersection-over-union of two boxes as an exact fraction
/// `num / den` with `0 <= num <= den`.
#[derive(Clone, Copy, PartialEq, Eq, Structural, Debug)]
pub struct IouRatio {
    pub num: i64,
    pub den: i64,
}

proof fn lemma_mul_le(x: int, y: int, xb: int, yb: int)
    by (nonlinear_arith)
    requires
        0 <= x <= xb,
        0 <= y <= yb,
    ensures
        0 <= x * y <= xb * yb,
{
}

/// The area of a box is never negative, and a box with inverted corners has
/// area exactly zero.
pub proof fn lemma_area_nonnegative(b: BoundingBox)
    ensures
        spec_area(b) >= 0,
        b.x_br < b.x_tl || b.y_br < b.y_tl ==> spec_area(b) == 0,
{
    let dx = b.x_br - b.x_tl;
    let dy = b.y_br - b.y_tl;
    if dx >= 0 && dy >= 0 {
        lemma_mul_le(dx, dy, dx, dy);
    }
}

/// A well-formed box never encloses more than the whole normalized frame.
pub proof fn lemma_area_upper_bound(b: BoundingBox)
    requires
        b.wf(),
    ensures
        spec_area(b) <= COORD_SCALE * COORD_SCALE,
{
    let dx = b.x_br - b.x_tl;
    let dy = b.y_br - b.y_tl;
    if dx >= 0 && dy >= 0 {
        lemma_mul_le(dx, dy, COORD_SCALE as int, COORD_SCALE as int);
    }
}

/// The overlap of two boxes covers no more than either box alone.
pub proof fn lemma_overlap_area_within(a: BoundingBox, b: BoundingBox)
    ensures
        0 <= spec_overlap_area(a, b),
        spec_overlap_area(a, b) <= spec_area(a),
        spec_overlap_area(a, b) <= spec_area(b),
{
    let o = spec_overlap_box(a, b);
    let dxo = o.x_br - o.x_tl;
    let dyo = o.y_br - o.y_tl;
    lemma_area_nonnegative(o);
    lemma_area_nonnegative(a);
    lemma_area_nonnegative(b);
    if dxo >= 0 && dyo >= 0 {
        lemma_mul_le(dxo, dyo, a.x_br - a.x_tl, a.y_br - a.y_tl);
        lemma_mul_le(dxo, dyo, b.x_br - b.x_tl, b.y_br - b.y_tl);
    }
}

/// The intersection-over-union ratio always lies in `[0, 1]`: its
/// numerator is at least zero and never greater than its denominator.
pub proof fn lemma_iou_in_unit_range(a: BoundingBox, b: BoundingBox)
    ensures
        0 <= spec_iou_num(a, b) <= spec_iou_den(a, b),
        spec_iou_den(a, b) >= 1,
{
    lemma_overlap_area_within(a, b);
}

/// A non-degenerate box has an intersection-over-union of exactly one with
/// itself.
pub proof fn lemma_iou_self(a: BoundingBox)
    requires
        a.x_tl < a.x_br,
        a.y_tl < a.y_br,
    ensures
        spec_iou_num(a, a) == spec_iou_den(a, a),
        spec_iou_num(a, a) > 0,
{
    let o = spec_overlap_box(a, a);
    assert(o == a);
    let dx = a.x_br - a.x_tl;
    let dy = a.y_br - a.y_tl;
    assert(dx * dy > 0) by (nonlinear_arith)
        requires
            dx >= 1,
            dy >= 1;
}

/// Intersection-over-union does not depend on the order of its arguments.
pub proof fn lemma_iou_symmetric(a: BoundingBox, b: BoundingBox)
    ensures
        spec_iou_num(a, b) == spec_iou_num(b, a),
        spec_iou_den(a, b) == spec_iou_den(b, a),
{
    assert(spec_overlap_box(a, b) == spec_overlap_box(b, a));
}

/// Calculate the area enclosed by a bounding box, in squared coordinate
/// units. A box whose bottom-right corner sits above or to the left of its
/// top-left corner is empty and has area zero.
pub fn bbox_area(bbox: &BoundingBox) -> (area: i64)
    requires
        bbox.wf(),
    ensures
        area == spec_area(*bbox),
        0 <= area <= COORD_SCALE * COORD_SCALE,
{
    let dx = bbox.x_br - bbox.x_tl;
    let dy = bbox.y_br - bbox.y_tl;
    if dx < 0 || dy < 0 {
        return 0;
    }
    proof {
        lemma_mul_le(dx as int, dy as int, COORD_SCALE as int, COORD_SCALE as int);
    }
    dx * dy
}

fn max_i64(a: i64, b: i64) -> (r: i64)
    ensures
        r == spec_max(a as int, b as int),
{
    if a >= b {
        a
    } else {
        b
    }
}

fn min_i64(a: i64, b: i64) -> (r: i64)
    ensures
        r == spec_min(a as int, b as int),
{
    if a <= b {
        a
    } else {
        b
    }
}

/// Calculate the intersection-over-union metric of two bounding boxes, as
/// the exact fraction of overlap area over union area. When both boxes are
/// degenerate there is no union and the ratio is zero.
pub fn iou(bbox_a: &BoundingBox, bbox_b: &BoundingBox) -> (ratio: IouRatio)
    requires
        bbox_a.wf(),
        bbox_b.wf(),
    ensures
        ratio.num == spec_iou_num(*bbox_a, *bbox_b),
        ratio.den == spec_iou_den(*bbox_a, *bbox_b),
        0 <= ratio.num <= ratio.den,
        1 <= ratio.den <= 2 * COORD_SCALE * COORD_SCALE,
{
    let overlap_box = BoundingBox {
        x_tl: max_i64(bbox_a.x_tl, bbox_b.x_tl),
        y_tl: max_i64(bbox_a.y_tl, bbox_b.y_tl),
        x_br: min_i64(bbox_a.x_br, bbox_b.x_br),
        y_br: min_i64(bbox_a.y_br, bbox_b.y_br),
    };
    proof {
        assert(overlap_box == spec_overlap_box(*bbox_a, *bbox_b));
        lemma_overlap_area_within(*bbox_a, *bbox_b);
        lemma_area_upper_bound(*bbox_a);
        lemma_area_upper_bound(*bbox_b);
    }
    let overlap_area = bbox_area(&overlap_box);
    let union_area = bbox_area(bbox_a) + bbox_area(bbox_b) - overlap_area;
    if union_area == 0 {
        IouRatio { num: 0, den: 1 }
    } else {
        IouRatio { num: overlap_area, den: union_area }
    }
}

/// Whether the intersection-over-union of the two boxes exceeds the
/// threshold `max_iou / COORD_SCALE`, decided in exact arithmetic.
pub fn iou_exceeds(bbox_a: &BoundingBox, bbox_b: &BoundingBox, max_iou: i64) -> (r: bool)
    requires
        bbox_a.wf(),
        bbox_b.wf(),
        0 <= max_iou <= COORD_SCALE,
    ensures
        r == spec_iou_exceeds(*bbox_a, *bbox_b, max_iou as int),
{
    let ratio = iou(bbox_a, bbox_b);
    proof {
        lemma_mul_le(
            ratio.num as int,
            COORD_SCALE as int,
            2 * COORD_SCALE * COORD_SCALE,
            COORD_SCALE as int,
        );
        lemma_mul_le(
            max_iou as int,
            ratio.den as int,
            COORD_SCALE as int,
            2 * COORD_SCALE * COORD_SCALE,
        );
    }
    ratio.num * COORD_SCALE > max_iou * ratio.den
}

} // verus!
