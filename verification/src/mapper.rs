use vstd::prelude::*;

use crate::geometry::BoundingBox;
use crate::geometry::COORD_SCALE;

verus! {

/// Width of the fixed frame the detector sees; boxes it reports are
/// normalized against this frame.
pub const ULTRA_INPUT_WIDTH: u64 = 640;

/// Height of the fixed frame the detector sees.
pub const ULTRA_INPUT_HEIGHT: u64 = 480;

/// Largest pixel dimension of an image the mapper accepts; keeps every
/// intermediate product inside `u64`.
pub const MAX_IMAGE_DIM: u64 = 1_000_000;

/// Largest pixel dimension of a detector input frame the mapper accepts.
pub const MAX_TARGET_DIM: u64 = 65_536;

/// A crop rectangle in pixel coordinates of the original image, or the
/// explicit outcome that the mapped box collapsed to nothing. A
/// degenerate crop is a valid result, not an error: the caller treats it
/// as "no usable crop".
#[derive(Clone, Copy, PartialEq, Eq, Structural, Debug)]
pub enum CropRegion {
    Usable { x: u64, y: u64, width: u64, height: u64 },
    Degenerate,
}

/// Denominator of the exact x-coordinate fraction. When the original
/// image is relatively wider than the detector frame (`w*th > h*tw`) the
/// x-fractions apply to a scaled width `tw*h/th` with a centering offset,
/// so the denominator carries `th`; otherwise x-fractions apply directly
/// to the image width.
pub open spec fn spec_x_den(w: int, h: int, tw: int, th: int) -> int {
    if w * th > h * tw {
        2 * COORD_SCALE * th
    } else {
        COORD_SCALE as int
    }
}

/// Numerator of the exact x-coordinate fraction for a box fraction `b`
/// (scaled by [`COORD_SCALE`]): `b*(tw*h/th) + (w - tw*h/th)/2` over the
/// common denominator `2*COORD_SCALE*th` in the letterboxed case, plain
/// `b*w/COORD_SCALE` otherwise.
pub open spec fn spec_x_num(b: int, w: int, h: int, tw: int, th: int) -> int {
    if w * th > h * tw {
        2 * b * tw * h + COORD_SCALE * (w * th - h * tw)
    } else {
        b * w
    }
}

/// The x pixel coordinate a normalized detector-frame fraction `b` maps
/// to on a `w` by `h` image, with the division floored to whole pixels.
pub open spec fn spec_map_x(b: int, w: int, h: int, tw: int, th: int) -> int {
    spec_x_num(b, w, h, tw, th) / spec_x_den(w, h, tw, th)
}

/// Denominator of the exact y-coordinate fraction; the mirror image of
/// [`spec_x_den`] for an original relatively taller than the detector
/// frame.
pub open spec fn spec_y_den(w: int, h: int, tw: int, th: int) -> int {
    if w * th < h * tw {
        2 * COORD_SCALE * tw
    } else {
        COORD_SCALE as int
    }
}

pub open spec fn spec_y_num(b: int, w: int, h: int, tw: int, th: int) -> int {
    if w * th < h * tw {
        2 * b * th * w + COORD_SCALE * (h * tw - w * th)
    } else {
        b * h
    }
}

/// The y pixel coordinate a normalized detector-frame fraction `b` maps
/// to on a `w` by `h` image.
pub open spec fn spec_map_y(b: int, w: int, h: int, tw: int, th: int) -> int {
    spec_y_num(b, w, h, tw, th) / spec_y_den(w, h, tw, th)
}

/// Crop width in whole pixels: the exact right edge minus the exact left
/// edge, floored, and zero when the edges are crossed.
pub open spec fn spec_crop_width(bb: BoundingBox, w: int, h: int, tw: int, th: int) -> int {
    let tl = spec_x_num(bb.x_tl as int, w, h, tw, th);
    let br = spec_x_num(bb.x_br as int, w, h, tw, th);
    if br > tl {
        (br - tl) / spec_x_den(w, h, tw, th)
    } else {
        0
    }
}

pub open spec fn spec_crop_height(bb: BoundingBox, w: int, h: int, tw: int, th: int) -> int {
    let tl = spec_y_num(bb.y_tl as int, w, h, tw, th);
    let br = spec_y_num(bb.y_br as int, w, h, tw, th);
    if br > tl {
        (br - tl) / spec_y_den(w, h, tw, th)
    } else {
        0
    }
}

/// Dimension bounds under which the mapper's arithmetic stays exact.
pub open spec fn spec_dims_ok(w: int, h: int, tw: int, th: int) -> bool {
    &&& 1 <= w <= MAX_IMAGE_DIM
    &&& 1 <= h <= MAX_IMAGE_DIM
    &&& 1 <= tw <= MAX_TARGET_DIM
    &&& 1 <= th <= MAX_TARGET_DIM
}

/// Reproject a box normalized against the detector's `tw` by `th` frame
/// onto the pixel grid of the original `image_width` by `image_height`
/// image that was letterboxed into that frame. Each edge is computed by
/// the exact aspect-ratio formula and floored to whole pixels; a crop
/// without at least one whole pixel on each side is reported degenerate.
pub fn map_detection_box(
    bbox: &BoundingBox,
    image_width: u64,
    image_height: u64,
    target_width: u64,
    target_height: u64,
) -> (region: CropRegion)
    requires
        bbox.wf(),
        spec_dims_ok(
            image_width as int,
            image_height as int,
            target_width as int,
            target_height as int,
        ),
    ensures
        ({
            let w = image_width as int;
            let h = image_height as int;
            let tw = target_width as int;
            let th = target_height as int;
            match region {
                CropRegion::Usable { x, y, width, height } => {
                    &&& spec_crop_width(*bbox, w, h, tw, th) >= 1
                    &&& spec_crop_height(*bbox, w, h, tw, th) >= 1
                    &&& x == spec_map_x(bbox.x_tl as int, w, h, tw, th)
                    &&& y == spec_map_y(bbox.y_tl as int, w, h, tw, th)
                    &&& width == spec_crop_width(*bbox, w, h, tw, th)
                    &&& height == spec_crop_height(*bbox, w, h, tw, th)
                },
                CropRegion::Degenerate => spec_crop_width(*bbox, w, h, tw, th) < 1
                    || spec_crop_height(*bbox, w, h, tw, th) < 1,
            }
        }),
{
    let w = image_width;
    let h = image_height;
    let tw = target_width;
    let th = target_height;
    proof {
        assert(w * th <= 65_536_000_000) by (nonlinear_arith)
            requires
                1 <= w <= 1_000_000,
                1 <= th <= 65_536;
        assert(h * tw <= 65_536_000_000) by (nonlinear_arith)
            requires
                1 <= h <= 1_000_000,
                1 <= tw <= 65_536;
    }
    let bx_tl = bbox.x_tl as u64;
    let bx_br = bbox.x_br as u64;
    let by_tl = bbox.y_tl as u64;
    let by_br = bbox.y_br as u64;
    proof {
        assert(2 * bx_tl * tw <= 131_072_000_000 && 2 * bx_br * tw <= 131_072_000_000 && 2 * by_tl
            * th <= 131_072_000_000 && 2 * by_br * th <= 131_072_000_000) by (nonlinear_arith)
            requires
                0 <= bx_tl <= 1_000_000,
                0 <= bx_br <= 1_000_000,
                0 <= by_tl <= 1_000_000,
                0 <= by_br <= 1_000_000,
                1 <= tw <= 65_536,
                1 <= th <= 65_536;
        assert(2 * bx_tl * tw * h <= 131_072_000_000_000_000 && 2 * bx_br * tw * h
            <= 131_072_000_000_000_000) by (nonlinear_arith)
            requires
                0 <= 2 * bx_tl * tw <= 131_072_000_000,
                0 <= 2 * bx_br * tw <= 131_072_000_000,
                1 <= h <= 1_000_000;
        assert(2 * by_tl * th * w <= 131_072_000_000_000_000 && 2 * by_br * th * w
            <= 131_072_000_000_000_000) by (nonlinear_arith)
            requires
                0 <= 2 * by_tl * th <= 131_072_000_000,
                0 <= 2 * by_br * th <= 131_072_000_000,
                1 <= w <= 1_000_000;
        assert(bx_tl * w <= 1_000_000_000_000 && bx_br * w <= 1_000_000_000_000 && by_tl * h
            <= 1_000_000_000_000 && by_br * h <= 1_000_000_000_000) by (nonlinear_arith)
            requires
                0 <= bx_tl <= 1_000_000,
                0 <= bx_br <= 1_000_000,
                0 <= by_tl <= 1_000_000,
                0 <= by_br <= 1_000_000,
                1 <= w <= 1_000_000,
                1 <= h <= 1_000_000;
    }

    let (x_den, x_tl_num, x_br_num): (u64, u64, u64) = if w * th > h * tw {
        let diff = w * th - h * tw;
        let pad = 1_000_000 * diff;
        (2_000_000 * th, 2 * bx_tl * tw * h + pad, 2 * bx_br * tw * h + pad)
    } else {
        (1_000_000, bx_tl * w, bx_br * w)
    };
    let (y_den, y_tl_num, y_br_num): (u64, u64, u64) = if w * th < h * tw {
        let diff = h * tw - w * th;
        let pad = 1_000_000 * diff;
        (2_000_000 * tw, 2 * by_tl * th * w + pad, 2 * by_br * th * w + pad)
    } else {
        (1_000_000, by_tl * h, by_br * h)
    };

    let width = if x_br_num > x_tl_num {
        (x_br_num - x_tl_num) / x_den
    } else {
        0
    };
    let height = if y_br_num > y_tl_num {
        (y_br_num - y_tl_num) / y_den
    } else {
        0
    };
    if width == 0 || height == 0 {
        return CropRegion::Degenerate;
    }
    let x = x_tl_num / x_den;
    let y = y_tl_num / y_den;
    CropRegion::Usable { x, y, width, height }
}

proof fn lemma_div_le_bound(num: int, den: int, bound: int)
    by (nonlinear_arith)
    requires
        0 <= num,
        1 <= den,
        0 <= bound,
        num <= den * bound,
    ensures
        0 <= num / den <= bound,
{
}

/// When the image already has the detector's aspect ratio, every
/// coordinate maps by plain scaling with `w` respectively `h` and there
/// is no padding offset on either axis.
pub proof fn lemma_equal_ratio_maps_directly(bb: BoundingBox, w: int, h: int, tw: int, th: int)
    requires
        spec_dims_ok(w, h, tw, th),
        w * th == h * tw,
    ensures
        spec_map_x(bb.x_tl as int, w, h, tw, th) == (bb.x_tl * w) / (COORD_SCALE as int),
        spec_map_x(bb.x_br as int, w, h, tw, th) == (bb.x_br * w) / (COORD_SCALE as int),
        spec_map_y(bb.y_tl as int, w, h, tw, th) == (bb.y_tl * h) / (COORD_SCALE as int),
        spec_map_y(bb.y_br as int, w, h, tw, th) == (bb.y_br * h) / (COORD_SCALE as int),
{
}

/// A well-formed box never maps outside the image: each mapped x lies in
/// `[0, w]` and each mapped y in `[0, h]`. In particular the full frame
/// box maps onto the padded scaled region and never past the image edge.
pub proof fn lemma_mapped_coords_in_frame(b: int, w: int, h: int, tw: int, th: int)
    requires
        spec_dims_ok(w, h, tw, th),
        0 <= b <= COORD_SCALE,
    ensures
        0 <= spec_map_x(b, w, h, tw, th) <= w,
        0 <= spec_map_y(b, w, h, tw, th) <= h,
{
    let s = COORD_SCALE as int;
    assert(s == 1_000_000);
    if w * th > h * tw {
        let num = spec_x_num(b, w, h, tw, th);
        let den = spec_x_den(w, h, tw, th);
        assert(den >= 2) by (nonlinear_arith)
            requires
                den == 2 * s * th,
                s == 1_000_000,
                th >= 1;
        assert(num >= 0) by (nonlinear_arith)
            requires
                0 <= b,
                1 <= tw,
                1 <= h,
                w * th > h * tw,
                num == 2 * b * tw * h + s * (w * th - h * tw),
                s == COORD_SCALE as int;
        assert(num <= den * w) by (nonlinear_arith)
            requires
                0 <= b <= s,
                1 <= tw,
                1 <= th,
                1 <= h,
                1 <= w,
                w * th > h * tw,
                num == 2 * b * tw * h + s * (w * th - h * tw),
                den == 2 * s * th,
                s == COORD_SCALE as int;
        lemma_div_le_bound(num, den, w);
    } else {
        let num = spec_x_num(b, w, h, tw, th);
        assert(num >= 0 && num <= s * w) by (nonlinear_arith)
            requires
                0 <= b <= s,
                1 <= w,
                num == b * w,
                s == COORD_SCALE as int;
        lemma_div_le_bound(num, s, w);
    }
    if w * th < h * tw {
        let num = spec_y_num(b, w, h, tw, th);
        let den = spec_y_den(w, h, tw, th);
        assert(den >= 2) by (nonlinear_arith)
            requires
                den == 2 * s * tw,
                s == 1_000_000,
                tw >= 1;
        assert(num >= 0) by (nonlinear_arith)
            requires
                0 <= b,
                1 <= th,
                1 <= w,
                w * th < h * tw,
                num == 2 * b * th * w + s * (h * tw - w * th),
                s == COORD_SCALE as int;
        assert(num <= den * h) by (nonlinear_arith)
            requires
                0 <= b <= s,
                1 <= tw,
                1 <= th,
                1 <= h,
                1 <= w,
                w * th < h * tw,
                num == 2 * b * th * w + s * (h * tw - w * th),
                den == 2 * s * tw,
                s == COORD_SCALE as int;
        lemma_div_le_bound(num, den, h);
    } else {
        let num = spec_y_num(b, w, h, tw, th);
        assert(num >= 0 && num <= s * h) by (nonlinear_arith)
            requires
                0 <= b <= s,
                1 <= h,
                num == b * h,
                s == COORD_SCALE as int;
        lemma_div_le_bound(num, s, h);
    }
}

} // verus!
