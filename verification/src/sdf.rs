//! The distance field builder.
//!
//! A rasteriser provides grey-scale, antialiased images of glyphs. The
//! coverage of an antialiased pixel tells where within the pixel the edge
//! runs, and the builder uses it to inform the distance calculation: a
//! modified Dijkstra's algorithm that starts at the boundary pixels and
//! carries, to every pixel within the radius, the vector to the boundary
//! pixel it was reached from.
use crate::bitmap::Bitmap;
use crate::boundary::add_coords_checked;
use crate::boundary::classify;
use crate::boundary::is_empty;
use crate::boundary::is_filled;
use crate::boundary::is_step;
use crate::boundary::PixelClass;
use crate::distance::FAR_INSIDE;
use crate::distance::FAR_OUTSIDE;
use crate::distance::PQKey;
use crate::field::key_of;
use crate::field::moved;
use crate::field::pixel_at;
use crate::field::priority_of;
use crate::field::Scene;
use crate::field::scene_of;
use crate::frontier::Frontier;
use crate::frontier::frontier_entries;
use crate::frontier::frontier_new;
use crate::frontier::frontier_pop;
use crate::frontier::frontier_push;
use crate::frontier::frontier_push_increase;
use crate::frontier::Pixel;
use crate::frontier::Priority;
use crate::frontier::priority_lt;
use crate::frontier::Visited;
use crate::frontier::visited_contains;
use crate::frontier::visited_insert;
use crate::frontier::visited_new;
use crate::relaxation::is_first;
use crate::relaxation::lemma_first_is_unique;
use crate::settings::SdfSettings;
use vstd::prelude::*;

verus! {

/// Whether a distance field can be built for a frame of the given size: the
/// radius is valid, and the padded canvas is no larger than a bitmap may be.
pub open spec fn canvas_fits_spec(dimensions: (u32, u32), sdf: SdfSettings) -> bool {
    &&& sdf.is_valid()
    &&& dimensions.0 + 2 * sdf.padding_spec() <= u32::MAX
    &&& dimensions.1 + 2 * sdf.padding_spec() <= u32::MAX
    &&& (dimensions.0 + 2 * sdf.padding_spec()) * (dimensions.1 + 2 * sdf.padding_spec())
        <= isize::MAX
}

/// Whether a distance field can be built for a frame of the given size.
pub fn canvas_fits(dimensions: (u32, u32), sdf: &SdfSettings) -> (fits: bool)
    ensures
        fits == canvas_fits_spec(dimensions, *sdf),
{
    if !sdf.check() {
        return false;
    }
    let padding = sdf.padding() as u64;
    let width = dimensions.0 as u64 + 2 * padding;
    let height = dimensions.1 as u64 + 2 * padding;
    if width > u32::MAX as u64 || height > u32::MAX as u64 {
        return false;
    }
    proof {
        crate::bitmap::lemma_area_bound(width as int, height as int);
    }
    width * height <= isize::MAX as u64
}

/// The priority under which a pixel waits in the frontier with a key.
pub fn priority(key: &PQKey, at: Pixel) -> (priority: Priority)
    requires
        key.wf(),
    ensures
        priority == priority_of(*key, at),
{
    (key.rank(), key.vector.0, key.vector.1, key.coverage, key.interior, at.0, at.1)
}

/// The key that a priority carries.
pub fn key_of_priority(priority: Priority) -> (key: PQKey)
    ensures
        key == key_of(priority),
{
    PQKey { vector: (priority.1, priority.2), coverage: priority.3, interior: priority.4 }
}

/// On which side of the glyph a pixel of the canvas lies: `Some(true)`
/// inside, `Some(false)` outside, `None` where the edge crosses the pixel.
/// Pixels beyond the frame of the coverage bitmap are outside.
pub fn side_of(image: &Bitmap, dimensions: (u32, u32), sdf: &SdfSettings, at: Pixel) -> (side:
    Option<bool>)
    requires
        scene_of(*image, dimensions, *sdf).fits(),
    ensures
        side == scene_of(*image, dimensions, *sdf).side(at.0 as int, at.1 as int),
{
    let padding = sdf.padding();
    if at.0 < padding || at.1 < padding {
        return Some(false);
    }
    let x = at.0 - padding;
    let y = at.1 - padding;
    if x >= dimensions.0 || y >= dimensions.1 {
        return Some(false);
    }
    let value = image.get_pixel(x, y);
    if is_empty(value) {
        Some(false)
    } else if is_filled(value) {
        Some(true)
    } else {
        None
    }
}

/// Sets every pixel of the canvas to `value`.
pub fn fill(canvas: &mut Bitmap, value: u8)
    ensures
        final(canvas).width_spec() == old(canvas).width_spec(),
        final(canvas).height_spec() == old(canvas).height_spec(),
        forall|x: int, y: int| final(canvas).covers(x, y) ==> #[trigger] final(canvas).at(x, y) == value,
{
    let width = canvas.width();
    let height = canvas.height();
    for x in 0..width
        invariant
            canvas.width_spec() == width,
            canvas.height_spec() == height,
            forall|u: int, v: int| 0 <= u < x && 0 <= v < height ==> #[trigger] canvas.at(u, v) == value,
    {
        for y in 0..height
            invariant
                x < width,
                canvas.width_spec() == width,
                canvas.height_spec() == height,
                forall|u: int, v: int|
                    0 <= u < x && 0 <= v < height ==> #[trigger] canvas.at(u, v) == value,
                forall|v: int| 0 <= v < y ==> #[trigger] canvas.at(x as int, v) == value,
        {
            canvas.set(x, y, value);
        }
    }
}

impl Scene {
    /// Whether the seeding, which walks the frame column by column, has
    /// passed the pixel `p` when it stands at column `x`, row `y` of the
    /// coverage bitmap.
    pub open spec fn passed(&self, p: Pixel, x: int, y: int) -> bool {
        self.over_frame(p.0 as int, p.1 as int) && (p.0 - self.padding() < x || (p.0
            - self.padding() == x && p.1 - self.padding() < y))
    }

    /// The value of the pixel `p` once the seeding has passed it.
    pub open spec fn seeded_value(&self, p: Pixel) -> u8 {
        if self.is_seed(p) {
            self.seed_key(p).byte_spec(self.sdf)
        } else {
            self.base(p)
        }
    }

    /// The state of the seeding when it stands at column `x`, row `y` of the
    /// coverage bitmap: the seeds it has passed are visited and wait in the
    /// frontier with their own keys, and the pixels it has passed hold their
    /// seeded values.
    pub open spec fn seeding(
        &self,
        canvas: Bitmap,
        entries: Map<Pixel, Priority>,
        visited: Set<Pixel>,
        x: int,
        y: int,
    ) -> bool {
        &&& canvas.width_spec() == self.width()
        &&& canvas.height_spec() == self.height()
        &&& forall|p: Pixel| #[trigger]
            visited.contains(p) <==> self.is_seed(p) && self.passed(p, x, y)
        &&& forall|p: Pixel| #[trigger]
            entries.contains_key(p) <==> self.is_seed(p) && self.passed(p, x, y)
        &&& forall|p: Pixel| #[trigger]
            entries.contains_key(p) ==> entries[p] == priority_of(self.seed_key(p), p)
        &&& forall|p: Pixel| #[trigger]
            self.holds(p) ==> pixel_at(canvas, p) == (if self.passed(p, x, y) {
                self.seeded_value(p)
            } else {
                FAR_OUTSIDE
            })
    }

    /// The state after the seeding: the seeds are visited and wait in the
    /// frontier with their own keys, and every pixel holds its seeded value.
    pub open spec fn seeded(
        &self,
        canvas: Bitmap,
        entries: Map<Pixel, Priority>,
        visited: Set<Pixel>,
    ) -> bool {
        &&& canvas.width_spec() == self.width()
        &&& canvas.height_spec() == self.height()
        &&& forall|p: Pixel| #[trigger] visited.contains(p) <==> self.is_seed(p)
        &&& forall|p: Pixel| #[trigger] entries.contains_key(p) <==> self.is_seed(p)
        &&& forall|p: Pixel| #[trigger]
            entries.contains_key(p) ==> entries[p] == priority_of(self.seed_key(p), p)
        &&& forall|p: Pixel| #[trigger] self.holds(p) ==> pixel_at(canvas, p) == self.seeded_value(p)
    }
}

/// Seeds the relaxation. Every boundary pixel of the coverage bitmap gets
/// the byte of its own key, is marked as visited and enters the frontier;
/// every interior pixel is set a full radius inside.
pub fn seed_frontier(
    image: &Bitmap,
    dimensions: (u32, u32),
    sdf: &SdfSettings,
    canvas: &mut Bitmap,
    frontier: &mut Frontier,
    visited: &mut Visited,
)
    requires
        scene_of(*image, dimensions, *sdf).fits(),
        old(canvas).width_spec() == scene_of(*image, dimensions, *sdf).width(),
        old(canvas).height_spec() == scene_of(*image, dimensions, *sdf).height(),
        forall|x: int, y: int| old(canvas).covers(x, y) ==> #[trigger] old(canvas).at(x, y) == FAR_OUTSIDE,
        frontier_entries(*old(frontier)) =~= Map::empty(),
        old(visited)@ =~= Set::empty(),
    ensures
        scene_of(*image, dimensions, *sdf).seeded(
            *final(canvas),
            frontier_entries(*final(frontier)),
            final(visited)@,
        ),
{
    let ghost scene = scene_of(*image, dimensions, *sdf);
    let padding = sdf.padding();
    assert forall|p: Pixel| #[trigger] scene.holds(p) implies pixel_at(*canvas, p) == FAR_OUTSIDE by {
        assert(canvas.covers(p.0 as int, p.1 as int));
    }
    for x in 0..dimensions.0
        invariant
            scene == scene_of(*image, dimensions, *sdf),
            scene.fits(),
            padding == scene.padding(),
            scene.seeding(*canvas, frontier_entries(*frontier), visited@, x as int, 0),
    {
        for y in 0..dimensions.1
            invariant
                x < dimensions.0,
                scene == scene_of(*image, dimensions, *sdf),
                scene.fits(),
                padding == scene.padding(),
                scene.seeding(*canvas, frontier_entries(*frontier), visited@, x as int, y as int),
        {
            let at: Pixel = (x + padding, y + padding);
            let ghost canvas_before = *canvas;
            let ghost entries_before = frontier_entries(*frontier);
            let ghost visited_before = visited@;
            match classify(image, dimensions, (x, y)) {
                PixelClass::Boundary => {
                    let key = PQKey::seed(image.get_pixel(x, y));
                    canvas.set(at.0, at.1, key.byte(sdf));
                    frontier_push(frontier, at, priority(&key, at));
                    visited_insert(visited, at);
                },
                PixelClass::Interior => {
                    canvas.set(at.0, at.1, FAR_INSIDE);
                },
                PixelClass::Empty => {},
            }
            proof {
                let entries = frontier_entries(*frontier);
                assert(scene.passed(at, x as int, y + 1) && !scene.passed(at, x as int, y as int));
                assert forall|p: Pixel| p != at implies scene.passed(p, x as int, y + 1)
                    == scene.passed(p, x as int, y as int) by {}
                assert forall|p: Pixel| #[trigger] scene.holds(p) implies pixel_at(*canvas, p) == (
                if scene.passed(p, x as int, y + 1) {
                    scene.seeded_value(p)
                } else {
                    FAR_OUTSIDE
                }) by {
                    if p != at {
                        assert(pixel_at(*canvas, p) == pixel_at(canvas_before, p));
                    }
                }
                assert forall|p: Pixel| #[trigger]
                    visited@.contains(p) <==> scene.is_seed(p) && scene.passed(
                        p,
                        x as int,
                        y + 1,
                    ) by {
                    if p != at {
                        assert(visited@.contains(p) == visited_before.contains(p));
                    }
                }
                assert forall|p: Pixel| #[trigger]
                    entries.contains_key(p) <==> scene.is_seed(p) && scene.passed(
                        p,
                        x as int,
                        y + 1,
                    ) by {
                    if p != at {
                        assert(entries.contains_key(p) == entries_before.contains_key(p));
                    }
                }
                assert forall|p: Pixel| #[trigger] entries.contains_key(p) implies entries[p]
                    == priority_of(scene.seed_key(p), p) by {
                    if p != at {
                        assert(entries_before.contains_key(p));
                    }
                }
            }
        }
        proof {
            assert forall|p: Pixel|
                scene.passed(p, x as int, dimensions.1 as int) == scene.passed(p, x + 1, 0) by {}
        }
    }
    proof {
        assert forall|p: Pixel| scene.passed(p, dimensions.0 as int, 0) == scene.over_frame(
            p.0 as int,
            p.1 as int,
        ) by {}
    }
}

impl Scene {
    /// Whether the pixel `to` got `priority` from a pixel with `key` at `at`
    /// by the step `(dx, dy)`.
    pub open spec fn handed_by(
        &self,
        visited: Set<Pixel>,
        key: PQKey,
        at: Pixel,
        dx: int,
        dy: int,
        to: Pixel,
        priority: Priority,
    ) -> bool {
        &&& self.relaxes(key, at, dx, dy)
        &&& to == moved(at, dx, dy)
        &&& !visited.contains(to)
        &&& priority == self.handed_priority(key, at, dx, dy)
    }

    /// Whether the pixel `to` got `priority` from a pixel with `key` at `at`.
    pub open spec fn handed(
        &self,
        visited: Set<Pixel>,
        key: PQKey,
        at: Pixel,
        to: Pixel,
        priority: Priority,
    ) -> bool {
        exists|dx: int, dy: int| self.handed_by(visited, key, at, dx, dy, to, priority)
    }

    /// What relaxing the neighbours of a pixel with `key` at `at` does to
    /// the frontier, as far as the steps before `(dx, dy)` go.
    ///
    /// - No pixel leaves the frontier, and no priority moves back: a pixel
    ///   keeps its priority or gets one that comes before it, and its rank
    ///   never grows.
    /// - A priority that changed, or is new, was handed on from `at`.
    /// - Every neighbour to which `at` hands a key on is in the frontier,
    ///   unless it has been visited.
    pub open spec fn relaxing(
        &self,
        before: Map<Pixel, Priority>,
        after: Map<Pixel, Priority>,
        visited: Set<Pixel>,
        key: PQKey,
        at: Pixel,
        dx: int,
        dy: int,
    ) -> bool {
        &&& forall|p: Pixel| #[trigger]
            before.contains_key(p) ==> after.contains_key(p) && !priority_lt(before[p], after[p])
                && after[p].0 <= before[p].0
        &&& forall|p: Pixel| #[trigger]
            after.contains_key(p) ==> (before.contains_key(p) && after[p] == before[p])
                || self.handed(visited, key, at, p, after[p])
        &&& forall|ex: int, ey: int|
            (ex < dx || (ex == dx && ey < dy)) && #[trigger] self.relaxes(key, at, ex, ey)
                ==> visited.contains(moved(at, ex, ey)) || after.contains_key(moved(at, ex, ey))
    }
}

/// Relaxes the neighbour of the pixel `at` that lies one step away: unless the
/// neighbour lies beyond the canvas, has been visited, lies under the edge,
/// or would get a key at or beyond the radius, it enters the frontier with
/// the key handed on, or takes that key if it is better than the one it has.
pub fn relax_neighbour(
    image: &Bitmap,
    dimensions: (u32, u32),
    sdf: &SdfSettings,
    frontier: &mut Frontier,
    visited: &Visited,
    key: &PQKey,
    at: Pixel,
    step: (i64, i64),
)
    requires
        scene_of(*image, dimensions, *sdf).fits(),
        scene_of(*image, dimensions, *sdf).holds(at),
        scene_of(*image, dimensions, *sdf).anchored(at, *key),
        is_step(step.0 as int, step.1 as int),
    ensures
        frontier_entries(*final(frontier)) == scene_of(*image, dimensions, *sdf).relaxed(
            frontier_entries(*old(frontier)),
            visited@,
            *key,
            at,
            step.0 as int,
            step.1 as int,
        ),
{
    let ghost scene = scene_of(*image, dimensions, *sdf);
    let padding = sdf.padding();
    let size = (dimensions.0 + 2 * padding, dimensions.1 + 2 * padding);
    let to = match add_coords_checked(size, at, step) {
        Some(to) => to,
        None => {
            return ;
        },
    };
    if visited_contains(visited, to) {
        return ;
    }
    let interior = match side_of(image, dimensions, sdf, to) {
        Some(interior) => interior,
        None => {
            return ;
        },
    };
    let candidate = key.step(step.0, step.1, interior);
    proof {
        let s = choose|s: Pixel| scene.anchored_at(at, s, *key);
        assert(scene.anchored_at(to, s, candidate));
    }
    if !candidate.within(sdf) {
        return ;
    }
    frontier_push_increase(frontier, to, priority(&candidate, to));
}

/// Relaxes the eight neighbours of the pixel `at`, which has just left the
/// frontier with `key`.
pub fn relax_neighbours(
    image: &Bitmap,
    dimensions: (u32, u32),
    sdf: &SdfSettings,
    frontier: &mut Frontier,
    visited: &Visited,
    key: &PQKey,
    at: Pixel,
)
    requires
        scene_of(*image, dimensions, *sdf).fits(),
        scene_of(*image, dimensions, *sdf).holds(at),
        scene_of(*image, dimensions, *sdf).anchored(at, *key),
    ensures
        frontier_entries(*final(frontier)) == scene_of(*image, dimensions, *sdf).relaxed_all(
            frontier_entries(*old(frontier)),
            visited@,
            *key,
            at,
            9,
        ),
        scene_of(*image, dimensions, *sdf).relaxing(
            frontier_entries(*old(frontier)),
            frontier_entries(*final(frontier)),
            visited@,
            *key,
            at,
            2,
            -1,
        ),
{
    let ghost scene = scene_of(*image, dimensions, *sdf);
    let ghost before = frontier_entries(*frontier);
    let mut dx: i64 = -1;
    while dx <= 1
        invariant
            -1 <= dx <= 2,
            scene == scene_of(*image, dimensions, *sdf),
            scene.fits(),
            scene.holds(at),
            scene.anchored(at, *key),
            scene.relaxing(before, frontier_entries(*frontier), visited@, *key, at, dx as int, -1),
            frontier_entries(*frontier) == scene.relaxed_all(
                before,
                visited@,
                *key,
                at,
                (3 * (dx + 1)) as nat,
            ),
        decreases 2 - dx,
    {
        let mut dy: i64 = -1;
        while dy <= 1
            invariant
                -1 <= dx <= 1,
                -1 <= dy <= 2,
                scene == scene_of(*image, dimensions, *sdf),
                scene.fits(),
                scene.holds(at),
                scene.anchored(at, *key),
                scene.relaxing(
                    before,
                    frontier_entries(*frontier),
                    visited@,
                    *key,
                    at,
                    dx as int,
                    dy as int,
                ),
                frontier_entries(*frontier) == scene.relaxed_all(
                    before,
                    visited@,
                    *key,
                    at,
                    (3 * (dx + 1) + (dy + 1)) as nat,
                ),
            decreases 2 - dy,
        {
            let ghost step = 3 * (dx + 1) + (dy + 1);
            assert(step / 3 - 1 == dx && step % 3 - 1 == dy);
            if !(dx == 0 && dy == 0) {
                let ghost middle = frontier_entries(*frontier);
                relax_neighbour(image, dimensions, sdf, frontier, visited, key, at, (dx, dy));
                proof {
                    lemma_relaxed_keeps(
                        scene,
                        before,
                        middle,
                        visited@,
                        *key,
                        at,
                        dx as int,
                        dy as int,
                    );
                }
            } else {
                assert(!scene.relaxes(*key, at, 0, 0));
            }
            dy = dy + 1;
        }
        dx = dx + 1;
        proof {
            let after = frontier_entries(*frontier);
            assert forall|ex: int, ey: int|
                (ex < dx || (ex == dx && ey < -1)) && #[trigger] scene.relaxes(
                    *key,
                    at,
                    ex,
                    ey,
                ) implies visited@.contains(moved(at, ex, ey)) || after.contains_key(
                moved(at, ex, ey),
            ) by {
                assert(ex < dx - 1 || (ex == dx - 1 && ey < 2));
            }
        }
    }
}

/// One more step keeps what relaxing the neighbours has brought about so far.
pub proof fn lemma_relaxed_keeps(
    scene: Scene,
    before: Map<Pixel, Priority>,
    middle: Map<Pixel, Priority>,
    visited: Set<Pixel>,
    key: PQKey,
    at: Pixel,
    dx: int,
    dy: int,
)
    requires
        scene.relaxing(before, middle, visited, key, at, dx, dy),
        is_step(dx, dy),
    ensures
        scene.relaxing(
            before,
            scene.relaxed(middle, visited, key, at, dx, dy),
            visited,
            key,
            at,
            dx,
            dy + 1,
        ),
{
    let after = scene.relaxed(middle, visited, key, at, dx, dy);
    let to = moved(at, dx, dy);
    let handed = scene.handed_priority(key, at, dx, dy);
    assert forall|p: Pixel| #[trigger] before.contains_key(p) implies after.contains_key(p)
        && !priority_lt(before[p], after[p]) && after[p].0 <= before[p].0 by {
        assert(middle.contains_key(p));
    }
    assert forall|p: Pixel| #[trigger] after.contains_key(p) implies (before.contains_key(p)
        && after[p] == before[p]) || scene.handed(visited, key, at, p, after[p]) by {
        if after != middle && p == to {
            assert(scene.handed_by(visited, key, at, dx, dy, p, after[p]));
        } else {
            assert(middle.contains_key(p));
        }
    }
    assert forall|ex: int, ey: int|
        (ex < dx || (ex == dx && ey < dy + 1)) && #[trigger] scene.relaxes(
            key,
            at,
            ex,
            ey,
        ) implies visited.contains(moved(at, ex, ey)) || after.contains_key(moved(at, ex, ey)) by {
        if ex == dx && ey == dy {
        } else {
            assert(ex < dx || (ex == dx && ey < dy));
            if !visited.contains(moved(at, ex, ey)) {
                assert(middle.contains_key(moved(at, ex, ey)));
            }
        }
    }
}

impl Scene {
    /// The state of the relaxation between two pixels leaving the frontier.
    /// `finals` holds the pixels that have left it, each with its key.
    ///
    /// - The visited pixels are the seeds and the pixels that have left.
    /// - A pixel in the frontier lies on the canvas, has not left, and waits
    ///   with a key that is justified for it.
    /// - Every seed is in the frontier or has left.
    /// - Every pixel that has left lies on the canvas and left with a key that
    ///   is justified for it.
    /// - A pixel that has left holds the byte of its key, any other pixel
    ///   its seeded value.
    /// - Where a pixel that has left hands a key on to a neighbour, that
    ///   neighbour is in the frontier or has left.
    pub open spec fn settled(
        &self,
        canvas: Bitmap,
        entries: Map<Pixel, Priority>,
        visited: Set<Pixel>,
        finals: Map<Pixel, PQKey>,
    ) -> bool {
        &&& canvas.width_spec() == self.width()
        &&& canvas.height_spec() == self.height()
        &&& forall|p: Pixel|
            #![trigger visited.contains(p)]
            #![trigger finals.contains_key(p)]
            #![trigger self.is_seed(p)]
            visited.contains(p) <==> self.is_seed(p) || finals.contains_key(p)
        &&& forall|p: Pixel| #[trigger]
            entries.contains_key(p) ==> self.holds(p) && !finals.contains_key(p) && entries[p]
                == priority_of(key_of(entries[p]), p) && self.justified(p, key_of(entries[p]))
        &&& forall|p: Pixel| #[trigger]
            self.is_seed(p) ==> entries.contains_key(p) || finals.contains_key(p)
        &&& forall|p: Pixel| #[trigger]
            finals.contains_key(p) ==> self.holds(p) && self.justified(p, finals[p])
        &&& forall|p: Pixel| #[trigger]
            self.holds(p) ==> pixel_at(canvas, p) == (if finals.contains_key(p) {
                finals[p].byte_spec(self.sdf)
            } else {
                self.seeded_value(p)
            })
        &&& forall|p: Pixel, dx: int, dy: int|
            finals.contains_key(p) && #[trigger] self.relaxes(finals[p], p, dx, dy)
                ==> entries.contains_key(moved(p, dx, dy)) || finals.contains_key(
                moved(p, dx, dy),
            )
    }

    /// The pixel with the given row-major index on the canvas.
    pub open spec fn pixel_of(&self, index: int) -> Pixel {
        ((index % self.width()) as u32, (index / self.width()) as u32)
    }

    /// The row-major index of a pixel on the canvas.
    pub open spec fn index_of(&self, p: Pixel) -> int {
        p.1 * self.width() + p.0
    }
}

/// A key that is justified for a pixel measures from some seed to that
/// pixel, so its vector fits the canvas.
pub proof fn lemma_justified_is_anchored(scene: Scene, p: Pixel, key: PQKey)
    requires
        scene.justified(p, key),
    ensures
        scene.anchored(p, key),
        key.wf(),
{
    if scene.is_seed(p) {
        assert(scene.anchored_at(p, p, key));
    }
    let s = choose|s: Pixel| scene.anchored_at(p, s, key);
    assert(scene.anchored_at(p, s, key));
}

/// The key that a pixel hands on to a neighbour that has not been visited
/// is justified for that neighbour.
pub proof fn lemma_handed_is_justified(
    scene: Scene,
    visited: Set<Pixel>,
    key: PQKey,
    at: Pixel,
    to: Pixel,
    priority: Priority,
)
    requires
        scene.fits(),
        scene.holds(at),
        scene.anchored(at, key),
        scene.handed(visited, key, at, to, priority),
        forall|p: Pixel| #[trigger] scene.is_seed(p) ==> visited.contains(p),
    ensures
        scene.holds(to),
        to != at,
        !visited.contains(to),
        priority == priority_of(key_of(priority), to),
        scene.justified(to, key_of(priority)),
{
    let (dx, dy) = choose|dx: int, dy: int| scene.handed_by(visited, key, at, dx, dy, to, priority);
    assert(scene.handed_by(visited, key, at, dx, dy, to, priority));
    let s = choose|s: Pixel| scene.anchored_at(at, s, key);
    let handed = key.step_spec(dx, dy, scene.side(at.0 + dx, at.1 + dy).unwrap());
    assert(scene.anchored_at(to, s, handed));
    assert(key_of(priority_of(handed, to)) == handed);
    assert(!scene.is_seed(to));
}

/// After the seeding, the relaxation is settled with no pixel having left.
pub proof fn lemma_seeded_is_settled(
    scene: Scene,
    canvas: Bitmap,
    entries: Map<Pixel, Priority>,
    visited: Set<Pixel>,
)
    requires
        scene.fits(),
        scene.seeded(canvas, entries, visited),
    ensures
        scene.settled(canvas, entries, visited, Map::empty()),
{
    let finals = Map::<Pixel, PQKey>::empty();
    assert forall|p: Pixel| #[trigger] entries.contains_key(p) implies scene.holds(p)
        && !finals.contains_key(p) && entries[p] == priority_of(key_of(entries[p]), p)
        && scene.justified(p, key_of(entries[p])) by {
        assert(scene.is_seed(p));
        assert(key_of(priority_of(scene.seed_key(p), p)) == scene.seed_key(p));
    }
}

/// A pixel that leaves the frontier, takes the byte of its key and relaxes
/// its neighbours leaves the relaxation settled.
pub proof fn lemma_leaving_keeps_settled(
    scene: Scene,
    canvas: Bitmap,
    entries: Map<Pixel, Priority>,
    visited: Set<Pixel>,
    finals: Map<Pixel, PQKey>,
    at: Pixel,
    written: Bitmap,
    relaxed: Map<Pixel, Priority>,
)
    requires
        scene.fits(),
        scene.settled(canvas, entries, visited, finals),
        entries.contains_key(at),
        written.width_spec() == canvas.width_spec(),
        written.height_spec() == canvas.height_spec(),
        written.at(at.0 as int, at.1 as int) == key_of(entries[at]).byte_spec(scene.sdf),
        forall|u: int, v: int|
            u != at.0 || v != at.1 ==> #[trigger] written.at(u, v) == canvas.at(u, v),
        scene.relaxing(entries.remove(at), relaxed, visited, key_of(entries[at]), at, 2, -1),
    ensures
        scene.settled(
            written,
            relaxed,
            visited.insert(at),
            finals.insert(at, key_of(entries[at])),
        ),
{
    let key = key_of(entries[at]);
    let popped = entries.remove(at);
    let visited_after = visited.insert(at);
    let finals_after = finals.insert(at, key);
    lemma_justified_is_anchored(scene, at, key);
    assert forall|p: Pixel|
        #![trigger visited_after.contains(p)]
        #![trigger finals_after.contains_key(p)]
        #![trigger scene.is_seed(p)]
        visited_after.contains(p) <==> scene.is_seed(p) || finals_after.contains_key(p) by {
        assert(visited.contains(p) <==> scene.is_seed(p) || finals.contains_key(p));
    }
    assert forall|p: Pixel| #[trigger] relaxed.contains_key(p) implies scene.holds(p)
        && !finals_after.contains_key(p) && relaxed[p] == priority_of(key_of(relaxed[p]), p)
        && scene.justified(p, key_of(relaxed[p])) by {
        if popped.contains_key(p) && relaxed[p] == popped[p] {
            assert(entries.contains_key(p));
        } else {
            assert(scene.handed(visited, key, at, p, relaxed[p]));
            lemma_handed_is_justified(scene, visited, key, at, p, relaxed[p]);
            assert(visited.contains(p) <==> scene.is_seed(p) || finals.contains_key(p));
        }
    }
    assert forall|p: Pixel| #[trigger] scene.is_seed(p) implies relaxed.contains_key(p)
        || finals_after.contains_key(p) by {
        if p != at && entries.contains_key(p) {
            assert(popped.contains_key(p));
        }
    }
    assert forall|p: Pixel| #[trigger] finals_after.contains_key(p) implies scene.holds(p)
        && scene.justified(p, finals_after[p]) by {
        if p != at {
            assert(finals.contains_key(p));
        }
    }
    assert forall|p: Pixel| #[trigger] scene.holds(p) implies pixel_at(written, p) == (
    if finals_after.contains_key(p) {
        finals_after[p].byte_spec(scene.sdf)
    } else {
        scene.seeded_value(p)
    }) by {
        if p != at {
            assert(pixel_at(written, p) == pixel_at(canvas, p));
        }
    }
    assert forall|p: Pixel, dx: int, dy: int|
        finals_after.contains_key(p) && #[trigger] scene.relaxes(
            finals_after[p],
            p,
            dx,
            dy,
        ) implies relaxed.contains_key(moved(p, dx, dy)) || finals_after.contains_key(
        moved(p, dx, dy),
    ) by {
        let to = moved(p, dx, dy);
        if p == at {
            assert(dx < 2 || (dx == 2 && dy < -1));
            if visited.contains(to) {
                assert(scene.is_seed(to) || finals.contains_key(to));
                if !finals.contains_key(to) {
                    assert(entries.contains_key(to));
                    assert(to != at);
                    assert(popped.contains_key(to));
                }
            }
        } else {
            assert(finals.contains_key(p));
            assert(scene.relaxes(finals[p], p, dx, dy));
            if to != at && entries.contains_key(to) {
                assert(popped.contains_key(to));
            }
        }
    }
}

/// Once the frontier is empty, the canvas is a distance field of the scene
/// in which the reached pixels are those that have left the frontier.
pub proof fn lemma_settled_explains(
    scene: Scene,
    canvas: Bitmap,
    entries: Map<Pixel, Priority>,
    visited: Set<Pixel>,
    finals: Map<Pixel, PQKey>,
)
    requires
        scene.settled(canvas, entries, visited, finals),
        entries =~= Map::empty(),
    ensures
        scene.explains(canvas, finals),
{
    assert forall|p: Pixel| #[trigger] scene.holds(p) implies pixel_at(canvas, p) == scene.shown(
        finals,
        p,
    ) by {
        if !finals.contains_key(p) && scene.is_seed(p) {
            assert(entries.contains_key(p));
        }
    }
}

/// A pixel on the canvas is the pixel of its row-major index, and that index
/// lies below the area of the canvas.
pub proof fn lemma_pixel_of_index(scene: Scene, p: Pixel)
    requires
        scene.holds(p),
    ensures
        scene.pixel_of(scene.index_of(p)) == p,
        0 <= scene.index_of(p) < scene.width() * scene.height(),
{
    crate::bitmap::lemma_row_major_bound(p.0 as int, p.1 as int, scene.width(), scene.height());
    vstd::arithmetic::div_mod::lemma_fundamental_div_mod_converse(
        scene.index_of(p),
        scene.width(),
        p.1 as int,
        p.0 as int,
    );
}

/// Builds the signed distance field of a coverage bitmap.
///
/// The field is larger than the frame by the padding, the radius rounded up,
/// on every side, so that the radius of every effect finds room around the
/// glyph; the padding is returned with the field. Every pixel of the field
/// holds the byte that stands for its signed distance to the boundary of
/// the glyph, negative inside and positive outside, and no more than the
/// radius in magnitude.
pub fn create_sdf_texture(image: &Bitmap, dimensions: (u32, u32), sdf: &SdfSettings) -> (field: (
    Bitmap,
    u32,
))
    requires
        dimensions.0 <= image.width_spec(),
        dimensions.1 <= image.height_spec(),
        canvas_fits_spec(dimensions, *sdf),
    ensures
        field.1 == sdf.padding_spec(),
        field.0.width_spec() == dimensions.0 + 2 * sdf.padding_spec(),
        field.0.height_spec() == dimensions.1 + 2 * sdf.padding_spec(),
        scene_of(*image, dimensions, *sdf).is_field(field.0),
{
    let ghost scene = scene_of(*image, dimensions, *sdf);
    assert(scene.fits());
    let texture_padding = sdf.padding();
    let new_dimensions = (dimensions.0 + 2 * texture_padding, dimensions.1 + 2 * texture_padding);
    let mut sdf_texture = Bitmap::new(new_dimensions.0, new_dimensions.1);
    fill(&mut sdf_texture, FAR_OUTSIDE);

    let mut frontier = frontier_new();
    let mut visited = visited_new();
    seed_frontier(image, dimensions, sdf, &mut sdf_texture, &mut frontier, &mut visited);

    let ghost mut finals: Map<Pixel, PQKey> = Map::empty();
    let ghost mut left: Set<int> = Set::empty();
    let ghost area = scene.width() * scene.height();
    proof {
        lemma_seeded_is_settled(scene, sdf_texture, frontier_entries(frontier), visited@);
        assert(area >= 0) by (nonlinear_arith)
            requires
                area == scene.width() * scene.height(),
                scene.width() >= 0,
                scene.height() >= 0,
        ;
        vstd::set_lib::lemma_int_range(0, area);
        assert(frontier_entries(frontier) =~= scene.seeds());
    }
    loop
        invariant
            scene == scene_of(*image, dimensions, *sdf),
            scene.fits(),
            area == scene.width() * scene.height(),
            scene.settled(sdf_texture, frontier_entries(frontier), visited@, finals),
            left.subset_of(vstd::set_lib::set_int_range(0, area)),
            vstd::set_lib::set_int_range(0, area).finite(),
            vstd::set_lib::set_int_range(0, area).len() == area,
            forall|index: int| #[trigger]
                left.contains(index) ==> finals.contains_key(scene.pixel_of(index)),
            left.finite(),
            scene.relaxation(frontier_entries(frontier), finals, (area - left.len()) as nat)
                == scene.finals(),
        ensures
            scene.settled(sdf_texture, frontier_entries(frontier), visited@, finals),
            frontier_entries(frontier) =~= Map::empty(),
            finals == scene.finals(),
        decreases area - left.len(),
    {
        let ghost entries = frontier_entries(frontier);
        let ghost canvas = sdf_texture;
        let ghost visited_before = visited@;
        let popped = frontier_pop(&mut frontier);
        if popped.is_none() {
            break ;
        }
        let (at, priority) = popped.unwrap();
        let key = key_of_priority(priority);
        proof {
            lemma_justified_is_anchored(scene, at, key);
            lemma_pixel_of_index(scene, at);
            assert(!left.contains(scene.index_of(at)));
            vstd::set_lib::lemma_len_subset(
                left.insert(scene.index_of(at)),
                vstd::set_lib::set_int_range(0, area),
            );
            assert(is_first(entries, at));
            lemma_first_is_unique(entries, at);
            assert(visited_before =~= scene.visited_spec(finals));
        }
        sdf_texture.set(at.0, at.1, key.byte(sdf));
        relax_neighbours(image, dimensions, sdf, &mut frontier, &visited, &key, at);
        visited_insert(&mut visited, at);
        proof {
            lemma_leaving_keeps_settled(
                scene,
                canvas,
                entries,
                visited_before,
                finals,
                at,
                sdf_texture,
                frontier_entries(frontier),
            );
            finals = finals.insert(at, key);
            left = left.insert(scene.index_of(at));
        }
    }
    proof {
        lemma_settled_explains(scene, sdf_texture, frontier_entries(frontier), visited@, finals);
    }
    (sdf_texture, texture_padding)
}

} // verus!
