//! The relaxation, as a function of the scene.
//!
//! The seeds enter the frontier with their own keys. Then, round by round,
//! the first pixel of the frontier leaves it with its key and hands keys on
//! to its eight neighbours, until the frontier is empty. As the priority of
//! a pixel names the pixel, the first pixel is always one pixel and no
//! other, and the keys with which the pixels end are a function of the
//! coverage, the frame and the radius alone.
use crate::bitmap::Bitmap;
use crate::boundary::empty_towards;
use crate::boundary::in_frame;
use crate::boundary::is_step;
use crate::boundary::pixel_class;
use crate::boundary::touches_empty;
use crate::distance::PQKey;
use crate::field::key_of;
use crate::field::moved;
use crate::field::pixel_at;
use crate::field::priority_of;
use crate::field::Scene;
use crate::frontier::priority_lt;
use crate::frontier::Pixel;
use crate::frontier::Priority;
use vstd::prelude::*;

verus! {

impl Scene {
    /// The priority that a pixel with `key` at `at` hands on to its
    /// neighbour one step `(dx, dy)` away.
    pub open spec fn handed_priority(&self, key: PQKey, at: Pixel, dx: int, dy: int) -> Priority {
        priority_of(
            key.step_spec(dx, dy, self.side(at.0 + dx, at.1 + dy).unwrap()),
            moved(at, dx, dy),
        )
    }

    /// The frontier after a pixel with `key` at `at` has relaxed its
    /// neighbour one step `(dx, dy)` away. Where it hands a key on and the
    /// neighbour has not been visited, the neighbour gets the priority handed
    /// on if it has none or one that comes after it; otherwise nothing
    /// changes.
    pub open spec fn relaxed(
        &self,
        entries: Map<Pixel, Priority>,
        visited: Set<Pixel>,
        key: PQKey,
        at: Pixel,
        dx: int,
        dy: int,
    ) -> Map<Pixel, Priority> {
        let to = moved(at, dx, dy);
        let handed = self.handed_priority(key, at, dx, dy);
        if self.relaxes(key, at, dx, dy) && !visited.contains(to) && (!entries.contains_key(to)
            || priority_lt(handed, entries[to])) {
            entries.insert(to, handed)
        } else {
            entries
        }
    }

    /// The frontier after a pixel with `key` at `at` has relaxed the first
    /// `steps` of its neighbours. The steps are taken column by column, and
    /// from the top down within a column: step `k` goes by
    /// `(k / 3 - 1, k % 3 - 1)`, and the step in the middle goes nowhere.
    pub open spec fn relaxed_all(
        &self,
        entries: Map<Pixel, Priority>,
        visited: Set<Pixel>,
        key: PQKey,
        at: Pixel,
        steps: nat,
    ) -> Map<Pixel, Priority>
        decreases steps,
    {
        if steps == 0 {
            entries
        } else {
            self.relaxed(
                self.relaxed_all(entries, visited, key, at, (steps - 1) as nat),
                visited,
                key,
                at,
                (steps - 1) / 3 - 1,
                (steps - 1) % 3 - 1,
            )
        }
    }

    /// The pixels that no longer take a new priority once the pixels of
    /// `finals` have left the frontier: the seeds and those pixels.
    pub open spec fn visited_spec(&self, finals: Map<Pixel, PQKey>) -> Set<Pixel> {
        Set::new(|p: Pixel| self.is_seed(p) || finals.contains_key(p))
    }

    /// The keys with which the pixels end when a frontier that holds
    /// `entries` is relaxed until it is empty, or for `rounds` rounds at
    /// most, after the pixels of `finals` have left it. In each round the
    /// first pixel of the frontier leaves with its key and relaxes its
    /// neighbours.
    pub open spec fn relaxation(
        &self,
        entries: Map<Pixel, Priority>,
        finals: Map<Pixel, PQKey>,
        rounds: nat,
    ) -> Map<Pixel, PQKey>
        decreases rounds,
    {
        if rounds == 0 || entries =~= Map::empty() {
            finals
        } else {
            let at = first(entries);
            let key = key_of(entries[at]);
            self.relaxation(
                self.relaxed_all(entries.remove(at), self.visited_spec(finals), key, at, 9),
                finals.insert(at, key),
                (rounds - 1) as nat,
            )
        }
    }

    /// The frontier after the seeding: every seed waits with its own key.
    pub open spec fn seeds(&self) -> Map<Pixel, Priority> {
        Map::new(|p: Pixel| self.is_seed(p), |p: Pixel| priority_of(self.seed_key(p), p))
    }

    /// The number of pixels of the canvas.
    pub open spec fn area(&self) -> nat {
        (self.width() * self.height()) as nat
    }

    /// The keys with which the reached pixels of the distance field end:
    /// what the relaxation of the seeds gives. No pixel leaves the frontier
    /// twice, so there are no more rounds than the canvas has pixels.
    pub open spec fn finals(&self) -> Map<Pixel, PQKey> {
        self.relaxation(self.seeds(), Map::empty(), self.area())
    }

    /// Whether `field` is the distance field of this scene.
    pub open spec fn is_field(&self, field: Bitmap) -> bool {
        self.explains(field, self.finals())
    }
}

/// Whether `p` is a pixel of the frontier before whose priority none comes.
pub open spec fn is_first(entries: Map<Pixel, Priority>, p: Pixel) -> bool {
    entries.contains_key(p) && forall|q: Pixel| #[trigger]
        entries.contains_key(q) ==> !priority_lt(entries[q], entries[p])
}

/// The pixel of the frontier that leaves it next.
pub open spec fn first(entries: Map<Pixel, Priority>) -> Pixel {
    choose|p: Pixel| is_first(entries, p)
}

/// Where every pixel waits with a priority that names it, only one pixel can
/// be the first.
pub proof fn lemma_first_is_unique(entries: Map<Pixel, Priority>, p: Pixel)
    requires
        is_first(entries, p),
        forall|q: Pixel| #[trigger] entries.contains_key(q) ==> entries[q].5 == q.0 && entries[q].6 == q.1,
    ensures
        first(entries) == p,
{
    let f = first(entries);
    assert(is_first(entries, f));
    assert(entries.contains_key(f) && entries.contains_key(p));
    assert(!priority_lt(entries[f], entries[p]));
    assert(!priority_lt(entries[p], entries[f]));
    assert(entries[f].5 == entries[p].5 && entries[f].6 == entries[p].6);
}

impl Scene {
    /// Whether two scenes have the same inputs: the same frame, the same
    /// settings, and the same coverage at every pixel of the frame.
    pub open spec fn same_inputs(&self, other: Scene) -> bool {
        &&& self.size == other.size
        &&& self.sdf == other.sdf
        &&& forall|x: int, y: int|
            in_frame(self.size, x, y) ==> #[trigger] self.image.at(x, y) == other.image.at(x, y)
    }
}

/// Scenes with the same inputs class every pixel of the frame alike.
pub proof fn lemma_same_class(a: Scene, b: Scene, x: int, y: int)
    requires
        a.same_inputs(b),
        in_frame(a.size, x, y),
    ensures
        pixel_class(a.image, a.size, x, y) == pixel_class(
            b.image,
            b.size,
            x,
            y,
        ),
{
    if touches_empty(a.image, a.size, x, y) {
        lemma_same_touch(a, b, x, y);
    }
    if touches_empty(b.image, b.size, x, y) {
        lemma_same_touch(b, a, x, y);
    }
}

/// Where a pixel touches an empty one in a scene, it does so in every scene
/// with the same inputs.
pub proof fn lemma_same_touch(a: Scene, b: Scene, x: int, y: int)
    requires
        a.same_inputs(b) || b.same_inputs(a),
        touches_empty(a.image, a.size, x, y),
    ensures
        touches_empty(b.image, b.size, x, y),
{
    let (dx, dy) = choose|dx: int, dy: int|
        is_step(dx, dy) && #[trigger] empty_towards(a.image, a.size, x, y, dx, dy);
    if in_frame(a.size, x + dx, y + dy) {
        assert(a.image.at(x + dx, y + dy) == b.image.at(x + dx, y + dy));
    }
    assert(empty_towards(b.image, b.size, x, y, dx, dy));
}

/// Scenes with the same inputs have the same seeds with the same keys, the
/// same sides and the same base values.
pub proof fn lemma_same_pixels(a: Scene, b: Scene)
    requires
        a.same_inputs(b),
    ensures
        forall|p: Pixel| #[trigger] a.is_seed(p) == b.is_seed(p),
        forall|p: Pixel| #[trigger] a.is_seed(p) ==> a.seed_key(p) == b.seed_key(p),
        forall|p: Pixel| #[trigger] a.base(p) == b.base(p),
        forall|x: int, y: int| #[trigger] a.side(x, y) == b.side(x, y),
        a.seeds() == b.seeds(),
        forall|finals: Map<Pixel, PQKey>| #[trigger] a.visited_spec(finals) == b.visited_spec(finals),
{
    assert forall|p: Pixel| #[trigger] a.is_seed(p) == b.is_seed(p) by {
        if a.over_frame(p.0 as int, p.1 as int) {
            lemma_same_class(a, b, p.0 - a.padding(), p.1 - a.padding());
        }
    }
    assert forall|p: Pixel| #[trigger] a.base(p) == b.base(p) by {
        if a.over_frame(p.0 as int, p.1 as int) {
            lemma_same_class(a, b, p.0 - a.padding(), p.1 - a.padding());
        }
    }
    assert forall|x: int, y: int| #[trigger] a.side(x, y) == b.side(x, y) by {
        if a.over_frame(x, y) {
            assert(a.image.at(x - a.padding(), y - a.padding()) == b.image.at(
                x - a.padding(),
                y - a.padding(),
            ));
        }
    }
    assert forall|p: Pixel| #[trigger] a.is_seed(p) implies a.seed_key(p) == b.seed_key(p) by {
        assert(a.image.at(p.0 - a.padding(), p.1 - a.padding()) == b.image.at(
            p.0 - a.padding(),
            p.1 - a.padding(),
        ));
    }
    assert(a.seeds() =~= b.seeds());
    assert forall|finals: Map<Pixel, PQKey>| #[trigger]
        a.visited_spec(finals) == b.visited_spec(finals) by {
        assert(a.visited_spec(finals) =~= b.visited_spec(finals));
    }
}

/// Scenes with the same inputs relax every frontier alike.
pub proof fn lemma_same_relaxed(
    a: Scene,
    b: Scene,
    entries: Map<Pixel, Priority>,
    visited: Set<Pixel>,
    key: PQKey,
    at: Pixel,
    steps: nat,
)
    requires
        a.same_inputs(b),
    ensures
        a.relaxed_all(entries, visited, key, at, steps) == b.relaxed_all(
            entries,
            visited,
            key,
            at,
            steps,
        ),
    decreases steps,
{
    lemma_same_pixels(a, b);
    if steps > 0 {
        lemma_same_relaxed(a, b, entries, visited, key, at, (steps - 1) as nat);
        let dx = (steps - 1) / 3 - 1;
        let dy = (steps - 1) % 3 - 1;
        assert(a.side(at.0 + dx, at.1 + dy) == b.side(at.0 + dx, at.1 + dy));
    }
}

/// Scenes with the same inputs run the same relaxation.
pub proof fn lemma_same_relaxation(
    a: Scene,
    b: Scene,
    entries: Map<Pixel, Priority>,
    finals: Map<Pixel, PQKey>,
    rounds: nat,
)
    requires
        a.same_inputs(b),
    ensures
        a.relaxation(entries, finals, rounds) == b.relaxation(entries, finals, rounds),
    decreases rounds,
{
    lemma_same_pixels(a, b);
    if rounds > 0 && !(entries =~= Map::<Pixel, Priority>::empty()) {
        let at = first(entries);
        let key = key_of(entries[at]);
        let visited = a.visited_spec(finals);
        assert(visited == b.visited_spec(finals));
        lemma_same_relaxed(a, b, entries.remove(at), visited, key, at, 9);
        lemma_same_relaxation(
            a,
            b,
            a.relaxed_all(entries.remove(at), visited, key, at, 9),
            finals.insert(at, key),
            (rounds - 1) as nat,
        );
    }
}

/// The distance field is determined by its inputs. Fields of scenes with the
/// same frame, the same settings and the same coverage have the same size
/// and hold the same byte at every pixel.
pub proof fn lemma_field_is_determined(a: Scene, b: Scene, first: Bitmap, second: Bitmap)
    requires
        a.fits(),
        a.same_inputs(b),
        a.is_field(first),
        b.is_field(second),
    ensures
        first.width_spec() == second.width_spec(),
        first.height_spec() == second.height_spec(),
        forall|x: int, y: int| first.covers(x, y) ==> #[trigger] first.at(x, y) == second.at(x, y),
{
    lemma_same_pixels(a, b);
    lemma_same_relaxation(a, b, a.seeds(), Map::empty(), a.area());
    assert(a.finals() == b.finals());
    assert forall|x: int, y: int| first.covers(x, y) implies #[trigger] first.at(x, y) == second.at(
        x,
        y,
    ) by {
        let p: Pixel = (x as u32, y as u32);
        assert(a.holds(p) && b.holds(p));
        assert(pixel_at(first, p) == a.shown(a.finals(), p));
        assert(pixel_at(second, p) == b.shown(b.finals(), p));
        assert(a.base(p) == b.base(p));
    }
}

/// The distance field of a scene is one of the fields that its seeds explain.
pub proof fn lemma_field_has_field(scene: Scene, field: Bitmap)
    requires
        scene.is_field(field),
    ensures
        scene.has_field(field),
{
}

/// Relaxing a neighbour never moves a recorded distance back: a pixel of the
/// frontier stays in it, its rank never grows, and its priority changes
/// only to one that comes before it.
pub proof fn lemma_relaxed_never_grows(
    scene: Scene,
    entries: Map<Pixel, Priority>,
    visited: Set<Pixel>,
    key: PQKey,
    at: Pixel,
    dx: int,
    dy: int,
    p: Pixel,
)
    requires
        entries.contains_key(p),
    ensures
        scene.relaxed(entries, visited, key, at, dx, dy).contains_key(p),
        scene.relaxed(entries, visited, key, at, dx, dy)[p].0 <= entries[p].0,
        scene.relaxed(entries, visited, key, at, dx, dy)[p] != entries[p] ==> priority_lt(
            scene.relaxed(entries, visited, key, at, dx, dy)[p],
            entries[p],
        ),
{
}

} // verus!
