//! What a signed distance field is: the vocabulary in which the builder states
//! its result.
//!
//! A field is built from a coverage bitmap, the frame of that bitmap and the
//! settings of the font; together they are a `Scene`. The canvas of the field
//! is larger than the frame by the padding on every side. Boundary pixels are
//! the seeds; every other pixel either keeps its base value or was reached
//! from a seed by steps between neighbours, and then holds the byte of the
//! key that reached it.
use crate::bitmap::Bitmap;
use crate::boundary::in_frame;
use crate::boundary::is_step;
use crate::boundary::pixel_class;
use crate::boundary::spec_is_boundary_point;
use crate::boundary::spec_is_empty;
use crate::boundary::spec_is_filled;
use crate::boundary::PixelClass;
use crate::distance::PQKey;
use crate::distance::FAR_INSIDE;
use crate::distance::FAR_OUTSIDE;
use crate::frontier::Pixel;
use crate::frontier::Priority;
use crate::settings::SdfSettings;
use vstd::prelude::*;

verus! {

/// The inputs of a distance field.
pub struct Scene {
    /// The coverage bitmap.
    pub image: Bitmap,
    /// The width and height of the part of the bitmap that holds the glyph.
    pub size: (u32, u32),
    /// The settings of the font.
    pub sdf: SdfSettings,
}

/// The scene of a coverage bitmap, the size of its frame and the settings.
pub open spec fn scene_of(image: Bitmap, dimensions: (u32, u32), sdf: SdfSettings) -> Scene {
    Scene { image, size: dimensions, sdf }
}

/// The value of a bitmap at a pixel.
pub open spec fn pixel_at(image: Bitmap, p: Pixel) -> u8 {
    image.at(p.0 as int, p.1 as int)
}

/// The priority under which the pixel `p` waits in the frontier with `key`.
pub open spec fn priority_of(key: PQKey, p: Pixel) -> Priority {
    (key.rank_spec() as u64, key.vector.0, key.vector.1, key.coverage, key.interior, p.0, p.1)
}

/// The key that a priority carries.
pub open spec fn key_of(priority: Priority) -> PQKey {
    PQKey { vector: (priority.1, priority.2), coverage: priority.3, interior: priority.4 }
}

/// The position one step `(dx, dy)` away from `p`.
pub open spec fn moved(p: Pixel, dx: int, dy: int) -> Pixel {
    ((p.0 + dx) as u32, (p.1 + dy) as u32)
}

impl Scene {
    /// The padding of the canvas on every side.
    pub open spec fn padding(&self) -> int {
        self.sdf.padding_spec() as int
    }

    /// The width of the canvas.
    pub open spec fn width(&self) -> int {
        self.size.0 + 2 * self.padding()
    }

    /// The height of the canvas.
    pub open spec fn height(&self) -> int {
        self.size.1 + 2 * self.padding()
    }

    /// The frame lies in the bitmap, the radius is valid, and the canvas is
    /// no larger than a bitmap may be.
    pub open spec fn fits(&self) -> bool {
        &&& self.size.0 <= self.image.width_spec()
        &&& self.size.1 <= self.image.height_spec()
        &&& self.sdf.is_valid()
        &&& self.width() <= u32::MAX
        &&& self.height() <= u32::MAX
        &&& self.width() * self.height() <= isize::MAX
    }

    /// Whether `(x, y)` lies on the canvas.
    pub open spec fn on_canvas(&self, x: int, y: int) -> bool {
        0 <= x < self.width() && 0 <= y < self.height()
    }

    /// Whether the pixel lies on the canvas.
    pub open spec fn holds(&self, p: Pixel) -> bool {
        self.on_canvas(p.0 as int, p.1 as int)
    }

    /// Whether the canvas position `(x, y)` lies over the frame of the
    /// coverage bitmap.
    pub open spec fn over_frame(&self, x: int, y: int) -> bool {
        in_frame(self.size, x - self.padding(), y - self.padding())
    }

    /// The coverage under the canvas position `(x, y)`.
    pub open spec fn coverage(&self, x: int, y: int) -> u8 {
        self.image.at(x - self.padding(), y - self.padding())
    }

    /// Whether the pixel is a seed: it lies over a boundary pixel of the
    /// coverage bitmap.
    pub open spec fn is_seed(&self, p: Pixel) -> bool {
        self.over_frame(p.0 as int, p.1 as int) && spec_is_boundary_point(
            self.image,
            self.size,
            p.0 - self.padding(),
            p.1 - self.padding(),
        )
    }

    /// The key with which a seed starts.
    pub open spec fn seed_key(&self, p: Pixel) -> PQKey {
        PQKey::seed_spec(self.coverage(p.0 as int, p.1 as int))
    }

    /// On which side of the glyph the canvas position `(x, y)` lies: `true`
    /// inside, over a filled pixel; `false` outside, over an empty pixel or
    /// beyond the frame; `None` over a pixel that the edge crosses.
    pub open spec fn side(&self, x: int, y: int) -> Option<bool> {
        if !self.over_frame(x, y) {
            Some(false)
        } else if spec_is_empty(self.coverage(x, y)) {
            Some(false)
        } else if spec_is_filled(self.coverage(x, y)) {
            Some(true)
        } else {
            None
        }
    }

    /// The value of a pixel that no seed reaches: a full radius inside over
    /// an interior pixel, a full radius outside elsewhere.
    pub open spec fn base(&self, p: Pixel) -> u8 {
        if self.over_frame(p.0 as int, p.1 as int) && pixel_class(
            self.image,
            self.size,
            p.0 - self.padding(),
            p.1 - self.padding(),
        ) == PixelClass::Interior {
            FAR_INSIDE
        } else {
            FAR_OUTSIDE
        }
    }

    /// The key measures from the seed `s` to the pixel `p`: its vector is
    /// the displacement, its coverage that of the seed.
    pub open spec fn anchored_at(&self, p: Pixel, s: Pixel, key: PQKey) -> bool {
        &&& self.is_seed(s)
        &&& key.vector.0 == p.0 - s.0
        &&& key.vector.1 == p.1 - s.1
        &&& key.coverage == self.coverage(s.0 as int, s.1 as int)
    }

    /// The key measures from some seed to the pixel `p`.
    pub open spec fn anchored(&self, p: Pixel, key: PQKey) -> bool {
        exists|s: Pixel| self.anchored_at(p, s, key)
    }

    /// The key is one with which the pixel `p` can be reached from a seed: it
    /// measures from that seed, names the side of `p`, and lies within the
    /// radius.
    pub open spec fn reached(&self, p: Pixel, key: PQKey) -> bool {
        &&& self.anchored(p, key)
        &&& self.side(p.0 as int, p.1 as int) == Some(key.interior)
        &&& key.within_spec(self.sdf)
    }

    /// The key is one that the pixel `p` can end with: its own key for a
    /// seed, a key that reaches it for any other pixel.
    pub open spec fn justified(&self, p: Pixel, key: PQKey) -> bool {
        if self.is_seed(p) {
            key == self.seed_key(p)
        } else {
            self.reached(p, key)
        }
    }

    /// Whether a pixel that ends with `key` hands a key on to its neighbour
    /// one step `(dx, dy)` away: the neighbour lies on the canvas and on one
    /// side of the glyph, and the key it would get lies within the radius.
    pub open spec fn relaxes(&self, key: PQKey, p: Pixel, dx: int, dy: int) -> bool {
        &&& is_step(dx, dy)
        &&& self.on_canvas(p.0 + dx, p.1 + dy)
        &&& self.side(p.0 + dx, p.1 + dy) is Some
        &&& key.step_spec(dx, dy, self.side(p.0 + dx, p.1 + dy).unwrap()).within_spec(self.sdf)
    }

    /// The value of the pixel `p` in a field whose reached pixels ended with
    /// the keys `finals`.
    pub open spec fn shown(&self, finals: Map<Pixel, PQKey>, p: Pixel) -> u8 {
        if finals.contains_key(p) {
            finals[p].byte_spec(self.sdf)
        } else {
            self.base(p)
        }
    }

    /// Whether `field` is a distance field of this scene in which the
    /// reached pixels ended with the keys `finals`.
    ///
    /// - The field has the size of the canvas.
    /// - Every seed is among the reached pixels.
    /// - Every reached pixel lies on the canvas and ended with a key that is
    ///   justified for it.
    /// - A reached pixel holds the byte of its key, any other pixel its base
    ///   value.
    /// - The reached pixels are closed under relaxation: where a reached
    ///   pixel hands a key on to a neighbour, that neighbour is reached too.
    pub open spec fn explains(&self, field: Bitmap, finals: Map<Pixel, PQKey>) -> bool {
        &&& field.width_spec() == self.width()
        &&& field.height_spec() == self.height()
        &&& forall|p: Pixel| #[trigger] self.is_seed(p) ==> finals.contains_key(p)
        &&& forall|p: Pixel| #[trigger]
            finals.contains_key(p) ==> self.holds(p) && self.justified(p, finals[p])
        &&& forall|p: Pixel| #[trigger] self.holds(p) ==> pixel_at(field, p) == self.shown(finals, p)
        &&& forall|p: Pixel, dx: int, dy: int|
            finals.contains_key(p) && #[trigger] self.relaxes(finals[p], p, dx, dy)
                ==> finals.contains_key(moved(p, dx, dy))
    }

    /// Whether `field` is a distance field of this scene.
    pub open spec fn has_field(&self, field: Bitmap) -> bool {
        exists|finals: Map<Pixel, PQKey>| self.explains(field, finals)
    }
}

/// The distance for which a byte of a distance field stands, times 255 and
/// the denominator of the radius: `(byte / 255 - 0.5) * 2 * radius`.
pub open spec fn decoded(byte: u8, sdf: SdfSettings) -> int {
    (2 * byte - 255) * sdf.radius_num()
}

/// Every byte stands for a distance between minus the radius and the
/// radius; 0 stands for minus the radius and 255 for the radius.
pub proof fn lemma_decoded_in_range(byte: u8, sdf: SdfSettings)
    ensures
        -255 * sdf.radius_num() <= decoded(byte, sdf) <= 255 * sdf.radius_num(),
        decoded(FAR_INSIDE, sdf) == -255 * sdf.radius_num(),
        decoded(FAR_OUTSIDE, sdf) == 255 * sdf.radius_num(),
{
    let num = sdf.radius_num() as int;
    let level = 2 * byte - 255;
    assert(-255 * num <= level * num <= 255 * num) by (nonlinear_arith)
        requires
            -255 <= level <= 255,
            num >= 0,
    ;
}

/// The padding is the radius rounded up: the least whole number of pixels
/// that is not below the radius.
pub proof fn lemma_padding_is_ceiling(sdf: SdfSettings)
    requires
        sdf.is_bounded(),
    ensures
        (sdf.padding_spec() - 1) * sdf.radius_den() < sdf.radius_num() <= sdf.padding_spec()
            * sdf.radius_den(),
{
    let num = sdf.radius_num() as int;
    let den = sdf.radius_den() as int;
    vstd::arithmetic::power2::lemma_pow2_pos(sdf.log_den());
    let padding = (num + den - 1) / den;
    assert((padding - 1) * den < num <= padding * den) by (nonlinear_arith)
        requires
            den > 0,
            padding == (num + den - 1) / den,
    ;
}

/// A pixel that is not a seed, and that lies at the radius or beyond it
/// from every seed, holds its base value: a full radius outside, or a full
/// radius inside over an interior pixel of the glyph.
pub proof fn lemma_beyond_every_seed(scene: Scene, field: Bitmap, p: Pixel)
    requires
        scene.has_field(field),
        scene.holds(p),
        !scene.is_seed(p),
        forall|s: Pixel, key: PQKey| #[trigger]
            scene.anchored_at(p, s, key) ==> !key.within_spec(scene.sdf),
    ensures
        pixel_at(field, p) == scene.base(p),
        pixel_at(field, p) == FAR_OUTSIDE || pixel_at(field, p) == FAR_INSIDE,
{
    let finals = choose|finals: Map<Pixel, PQKey>| scene.explains(field, finals);
    if finals.contains_key(p) {
        assert(scene.justified(p, finals[p]));
        let s = choose|s: Pixel| scene.anchored_at(p, s, finals[p]);
        assert(scene.anchored_at(p, s, finals[p]));
    }
}

/// The distance field of a coverage bitmap that is empty throughout is a
/// full radius outside everywhere.
pub proof fn lemma_empty_field(scene: Scene, field: Bitmap)
    requires
        scene.has_field(field),
        forall|x: int, y: int| in_frame(scene.size, x, y) ==> #[trigger] scene.image.at(x, y) == 0,
    ensures
        forall|p: Pixel| #[trigger] scene.holds(p) ==> pixel_at(field, p) == FAR_OUTSIDE,
{
    let finals = choose|finals: Map<Pixel, PQKey>| scene.explains(field, finals);
    assert forall|p: Pixel| !#[trigger] scene.is_seed(p) by {
        if scene.over_frame(p.0 as int, p.1 as int) {
            assert(scene.image.at(p.0 - scene.padding(), p.1 - scene.padding()) == 0);
        }
    }
    assert forall|p: Pixel| #[trigger] scene.holds(p) implies pixel_at(field, p) == FAR_OUTSIDE by {
        if finals.contains_key(p) {
            assert(scene.justified(p, finals[p]));
            let s = choose|s: Pixel| scene.anchored_at(p, s, finals[p]);
            assert(scene.is_seed(s));
        }
        if scene.over_frame(p.0 as int, p.1 as int) {
            assert(scene.image.at(p.0 - scene.padding(), p.1 - scene.padding()) == 0);
        }
    }
}

} // verus!
