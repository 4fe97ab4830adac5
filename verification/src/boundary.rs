//! The boundary classifier: which pixels of a coverage bitmap lie on the edge
//! of the glyph.
//!
//! Coverage 0 is fully outside and 254 or 255 fully inside; anything between is
//! an antialiased pixel that the edge crosses. A pixel beyond the frame counts
//! as empty, so a filled pixel on the rim of the bitmap is on the boundary.
use crate::bitmap::Bitmap;
use vstd::prelude::*;

verus! {

/// The three classes of a coverage pixel.
#[derive(Clone, Copy, Debug, PartialEq, Eq, Structural)]
pub enum PixelClass {
    /// Coverage is zero.
    Empty,
    /// The edge crosses the pixel, or the pixel is filled and touches an empty one.
    Boundary,
    /// Filled, and so are all eight neighbours.
    Interior,
}

pub open spec fn spec_is_filled(value: u8) -> bool {
    value == 255 || value == 254
}

pub open spec fn spec_is_empty(value: u8) -> bool {
    value == 0
}

/// Whether `(x, y)` lies in a frame of the given size.
pub open spec fn in_frame(size: (u32, u32), x: int, y: int) -> bool {
    0 <= x < size.0 && 0 <= y < size.1
}

/// Whether the position `(x, y)` counts as empty: it lies beyond the frame, or
/// its coverage is zero.
pub open spec fn counts_as_empty(image: Bitmap, size: (u32, u32), x: int, y: int) -> bool {
    !in_frame(size, x, y) || spec_is_empty(image.at(x, y))
}

/// Whether `(dx, dy)` is one of the eight steps to a neighbouring pixel.
pub open spec fn is_step(dx: int, dy: int) -> bool {
    -1 <= dx <= 1 && -1 <= dy <= 1 && !(dx == 0 && dy == 0)
}

/// Whether the position one step `(dx, dy)` away from `(x, y)` counts as empty.
pub open spec fn empty_towards(
    image: Bitmap,
    size: (u32, u32),
    x: int,
    y: int,
    dx: int,
    dy: int,
) -> bool {
    counts_as_empty(image, size, x + dx, y + dy)
}

/// Whether one of the eight neighbours of `(x, y)` counts as empty.
pub open spec fn touches_empty(image: Bitmap, size: (u32, u32), x: int, y: int) -> bool {
    exists|dx: int, dy: int|
        is_step(dx, dy) && #[trigger] empty_towards(image, size, x, y, dx, dy)
}

/// The class of the pixel at `(x, y)`.
pub open spec fn pixel_class(image: Bitmap, size: (u32, u32), x: int, y: int) -> PixelClass {
    let value = image.at(x, y);
    if spec_is_empty(value) {
        PixelClass::Empty
    } else if !spec_is_filled(value) || touches_empty(image, size, x, y) {
        PixelClass::Boundary
    } else {
        PixelClass::Interior
    }
}

pub open spec fn spec_is_boundary_point(image: Bitmap, size: (u32, u32), x: int, y: int) -> bool {
    pixel_class(image, size, x, y) == PixelClass::Boundary
}

/// The position `offset` away from `at`, if it lies in a frame of the
/// given size.
pub fn add_coords_checked(size: (u32, u32), at: (u32, u32), offset: (i64, i64)) -> (moved: Option<
    (u32, u32),
>)
    ensures
        moved is Some <==> in_frame(size, at.0 + offset.0, at.1 + offset.1),
        moved matches Some(p) ==> p.0 == at.0 + offset.0 && p.1 == at.1 + offset.1,
{
    let x = match (at.0 as i64).checked_add(offset.0) {
        Some(x) => x,
        None => { return None; },
    };
    let y = match (at.1 as i64).checked_add(offset.1) {
        Some(y) => y,
        None => { return None; },
    };
    if x < 0 || y < 0 || x >= size.0 as i64 || y >= size.1 as i64 {
        return None;
    }
    Some((x as u32, y as u32))
}

/// Whether a coverage value means "fully inside". The two top values both do,
/// which absorbs the rounding of the rasteriser.
pub fn is_filled(value: u8) -> (filled: bool)
    ensures
        filled == spec_is_filled(value),
{
    value == 255 || value == 254
}

/// Whether a coverage value means "fully outside".
pub fn is_empty(value: u8) -> (empty: bool)
    ensures
        empty == spec_is_empty(value),
{
    value == 0
}

/// Whether the pixel at `at` is a boundary pixel: the edge crosses it, or it
/// is fully covered and borders an empty pixel or the rim of the frame.
pub fn is_boundary_point(image: &Bitmap, size: (u32, u32), at: (u32, u32)) -> (boundary: bool)
    requires
        size.0 <= image.width_spec(),
        size.1 <= image.height_spec(),
        in_frame(size, at.0 as int, at.1 as int),
    ensures
        boundary == spec_is_boundary_point(*image, size, at.0 as int, at.1 as int),
{
    let value = image.get_pixel(at.0, at.1);
    if is_empty(value) {
        return false;
    }
    if !is_filled(value) {
        return true;
    }
    let mut dx: i64 = -1;
    while dx <= 1
        invariant
            -1 <= dx <= 2,
            size.0 <= image.width_spec(),
            size.1 <= image.height_spec(),
            in_frame(size, at.0 as int, at.1 as int),
            spec_is_filled(image.at(at.0 as int, at.1 as int)),
            forall|ex: int, ey: int|
                is_step(ex, ey) && ex < dx ==> !#[trigger] empty_towards(
                    *image,
                    size,
                    at.0 as int,
                    at.1 as int,
                    ex,
                    ey,
                ),
        decreases 2 - dx,
    {
        let mut dy: i64 = -1;
        while dy <= 1
            invariant
                -1 <= dx <= 1,
                -1 <= dy <= 2,
                size.0 <= image.width_spec(),
                size.1 <= image.height_spec(),
                in_frame(size, at.0 as int, at.1 as int),
                spec_is_filled(image.at(at.0 as int, at.1 as int)),
                forall|ex: int, ey: int|
                    is_step(ex, ey) && (ex < dx || (ex == dx && ey < dy)) ==> !#[trigger] empty_towards(
                        *image,
                        size,
                        at.0 as int,
                        at.1 as int,
                        ex,
                        ey,
                    ),
            decreases 2 - dy,
        {
            if !(dx == 0 && dy == 0) {
                match add_coords_checked(size, at, (dx, dy)) {
                    None => {
                        assert(is_step(dx as int, dy as int) && empty_towards(
                            *image,
                            size,
                            at.0 as int,
                            at.1 as int,
                            dx as int,
                            dy as int,
                        ));
                        return true;
                    },
                    Some(p) => {
                        if is_empty(image.get_pixel(p.0, p.1)) {
                            assert(is_step(dx as int, dy as int) && empty_towards(
                                *image,
                                size,
                                at.0 as int,
                                at.1 as int,
                                dx as int,
                                dy as int,
                            ));
                            return true;
                        }
                    },
                }
            }
            dy = dy + 1;
        }
        dx = dx + 1;
    }
    false
}

/// The class of the pixel at `at`.
pub fn classify(image: &Bitmap, size: (u32, u32), at: (u32, u32)) -> (class: PixelClass)
    requires
        size.0 <= image.width_spec(),
        size.1 <= image.height_spec(),
        in_frame(size, at.0 as int, at.1 as int),
    ensures
        class == pixel_class(*image, size, at.0 as int, at.1 as int),
{
    if is_boundary_point(image, size, at) {
        PixelClass::Boundary
    } else if is_filled(image.get_pixel(at.0, at.1)) {
        PixelClass::Interior
    } else {
        PixelClass::Empty
    }
}

/// An empty pixel has coverage exactly zero, and an interior pixel has no
/// empty neighbour: all eight positions around it lie in the frame and have
/// coverage above zero.
pub proof fn lemma_class_meaning(image: Bitmap, size: (u32, u32), x: int, y: int)
    requires
        in_frame(size, x, y),
    ensures
        pixel_class(image, size, x, y) == PixelClass::Empty ==> image.at(x, y) == 0,
        pixel_class(image, size, x, y) == PixelClass::Interior ==> spec_is_filled(image.at(x, y))
            && forall|dx: int, dy: int| #[trigger]
            is_step(dx, dy) ==> in_frame(size, x + dx, y + dy) && image.at(x + dx, y + dy) > 0,
{
    if pixel_class(image, size, x, y) == PixelClass::Interior {
        assert forall|dx: int, dy: int| #[trigger] is_step(dx, dy) implies in_frame(
            size,
            x + dx,
            y + dy,
        ) && image.at(x + dx, y + dy) > 0 by {
            assert(!empty_towards(image, size, x, y, dx, dy));
        }
    }
}

/// A boundary pixel has coverage above zero; the edge crosses it, or it is
/// filled and one of its eight neighbours counts as empty.
pub proof fn lemma_boundary_meaning(image: Bitmap, size: (u32, u32), x: int, y: int)
    ensures
        spec_is_boundary_point(image, size, x, y) <==> image.at(x, y) > 0 && (!spec_is_filled(
            image.at(x, y),
        ) || touches_empty(image, size, x, y)),
{
}

} // verus!
