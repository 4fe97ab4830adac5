//! The key of the relaxation: how far a pixel is from the boundary pixel
//! that reached it, and what follows from that distance.
//!
//! A key stands for the signed distance
//!
//! ```text
//! d = s * sqrt(vx^2 + vy^2) + (255 - 2 * coverage) / 510      in pixels,
//! ```
//!
//! where `(vx, vy)` is the displacement from the boundary pixel, `coverage`
//! is the coverage of that boundary pixel (so that the last term is
//! `0.5 - coverage / 255`), and `s` is -1 for a pixel inside the glyph and +1
//! outside. The square root is irrational in general, so `d` is never
//! computed. What is computed, exactly and in whole numbers, is the floor and
//! the ceiling of `510 * den * d` for a denominator `den`; every test that
//! the relaxation makes comes down to those two.
use crate::root::integer_root;
use crate::root::lemma_root_between;
use crate::root::lemma_root_floor;
use crate::root::lemma_root_unique;
use crate::root::root_ceil;
use crate::root::root_floor;
use crate::settings::power_of_two;
use crate::settings::SdfSettings;
use vstd::arithmetic::power2::lemma2_to64;
use vstd::arithmetic::power2::lemma_pow2_pos;
use vstd::arithmetic::power2::lemma_pow2_strictly_increases;
use vstd::arithmetic::power2::lemma_pow2_unfold;
use vstd::arithmetic::power2::pow2;
use vstd::prelude::*;

verus! {

/// The denominator by which distances are ranked: a rank counts units of
/// 1 / (510 * 65536) of a pixel.
pub const RANK_DEN: u64 = 65536;

/// The byte of a pixel that lies a full radius outside the glyph.
pub const FAR_OUTSIDE: u8 = 255;

/// The byte of a pixel that lies a full radius inside the glyph.
pub const FAR_INSIDE: u8 = 0;

/// The key of a pixel in the relaxation.
#[derive(Clone, Copy, Debug)]
pub struct PQKey {
    /// The displacement from the closest boundary pixel found so far.
    pub vector: (i64, i64),
    /// The coverage of that boundary pixel; it shifts the distance by
    /// `0.5 - coverage / 255` of a pixel.
    pub coverage: u8,
    /// Whether this pixel lies inside the glyph.
    pub interior: bool,
}

impl PQKey {
    /// Both components of the displacement fit 32 bits in magnitude, as the
    /// difference of two positions on one canvas does.
    pub open spec fn wf(&self) -> bool {
        -0xFFFF_FFFF <= self.vector.0 <= 0xFFFF_FFFF && -0xFFFF_FFFF <= self.vector.1
            <= 0xFFFF_FFFF
    }

    /// The squared length of the displacement.
    pub open spec fn norm_sq(&self) -> nat {
        (self.vector.0 * self.vector.0 + self.vector.1 * self.vector.1) as nat
    }

    /// The correction for the coverage of the boundary pixel, in units of
    /// 1/510 of a pixel.
    pub open spec fn dist_num(&self) -> int {
        255 - 2 * self.coverage
    }

    /// The square of `510 * den` times the squared length of the
    /// displacement: what stands under the root in `510 * den * d`.
    pub open spec fn radicand(&self, den: nat) -> nat {
        260100 * self.norm_sq() * (den * den)
    }

    /// The floor of `510 * den * d`.
    pub open spec fn scaled_floor(&self, den: nat) -> int {
        if self.interior {
            den * self.dist_num() - root_ceil(self.radicand(den))
        } else {
            den * self.dist_num() + root_floor(self.radicand(den))
        }
    }

    /// The ceiling of `510 * den * d`.
    pub open spec fn scaled_ceil(&self, den: nat) -> int {
        if self.interior {
            den * self.dist_num() - root_floor(self.radicand(den))
        } else {
            den * self.dist_num() + root_ceil(self.radicand(den))
        }
    }

    /// Whether `d` is above zero. It is never zero.
    pub open spec fn is_outward(&self) -> bool {
        if self.norm_sq() == 0 {
            self.coverage <= 127
        } else {
            !self.interior
        }
    }

    /// The rank of the key: the floor of `510 * 65536 * |d|`. The relaxation
    /// takes the keys in the order of their ranks.
    pub open spec fn rank_spec(&self) -> nat {
        if self.scaled_floor(RANK_DEN as nat) >= 0 {
            self.scaled_floor(RANK_DEN as nat) as nat
        } else {
            (-self.scaled_ceil(RANK_DEN as nat)) as nat
        }
    }

    /// Whether `|d|` is below the radius.
    pub open spec fn within_spec(&self, sdf: SdfSettings) -> bool {
        -510 * sdf.radius_num() < self.scaled_ceil(sdf.radius_den()) && self.scaled_floor(
            sdf.radius_den(),
        ) < 510 * sdf.radius_num()
    }

    /// The byte that stands for `d` in a distance field of the given radius:
    /// the floor of `(d / (2 * radius) + 0.5) * 255`, and no less than 0 nor
    /// more than 255.
    pub open spec fn byte_spec(&self, sdf: SdfSettings) -> u8 {
        let level = (self.scaled_floor(sdf.radius_den()) + 510 * sdf.radius_num()) / (4
            * sdf.radius_num()) as int;
        if level < 0 {
            0
        } else if level > 255 {
            255
        } else {
            level as u8
        }
    }

    /// The key of a boundary pixel of the given coverage: no displacement,
    /// and counted as inside.
    pub open spec fn seed_spec(coverage: u8) -> PQKey {
        PQKey { vector: (0, 0), coverage, interior: true }
    }

    /// The key that a neighbour one step `(dx, dy)` away gets from this key.
    pub open spec fn step_spec(&self, dx: int, dy: int, interior: bool) -> PQKey {
        PQKey {
            vector: ((self.vector.0 + dx) as i64, (self.vector.1 + dy) as i64),
            coverage: self.coverage,
            interior,
        }
    }

    /// The key of a boundary pixel of the given coverage.
    pub fn seed(coverage: u8) -> (key: PQKey)
        ensures
            key == PQKey::seed_spec(coverage),
            key.wf(),
    {
        PQKey { vector: (0, 0), coverage, interior: true }
    }

    /// The key that a neighbour one step `(dx, dy)` away gets from this key.
    pub fn step(&self, dx: i64, dy: i64, interior: bool) -> (key: PQKey)
        requires
            self.wf(),
            -1 <= dx <= 1,
            -1 <= dy <= 1,
        ensures
            key == self.step_spec(dx as int, dy as int, interior),
            key.vector.0 == self.vector.0 + dx,
            key.vector.1 == self.vector.1 + dy,
    {
        PQKey {
            vector: (self.vector.0 + dx, self.vector.1 + dy),
            coverage: self.coverage,
            interior,
        }
    }

    /// The squared length of the displacement, times 260100.
    fn scaled_norm(&self) -> (scaled: u128)
        requires
            self.wf(),
        ensures
            scaled == 260100 * self.norm_sq(),
            scaled <= 0x7_F00F_FFFF_FFFF_FFFF_FFFF,
    {
        let x: i128 = self.vector.0 as i128;
        let y: i128 = self.vector.1 as i128;
        assert(0 <= x * x <= 0xFFFF_FFFF * 0xFFFF_FFFF) by (nonlinear_arith)
            requires
                -0xFFFF_FFFF <= x <= 0xFFFF_FFFF,
        ;
        assert(0 <= y * y <= 0xFFFF_FFFF * 0xFFFF_FFFF) by (nonlinear_arith)
            requires
                -0xFFFF_FFFF <= y <= 0xFFFF_FFFF,
        ;
        let norm: u128 = (x * x + y * y) as u128;
        260100 * norm
    }

    /// The floor and the ceiling of `510 * den * d`, where the radicand is
    /// `radicand` and `den * dist_num` is `shift`.
    fn bounds(&self, radicand: u128, shift: i128, den: Ghost<nat>) -> (bounds: (i128, i128))
        requires
            radicand == self.radicand(den@),
            shift == den@ * self.dist_num(),
            -0x1_0000_0000_0000 <= shift <= 0x1_0000_0000_0000,
        ensures
            bounds.0 == self.scaled_floor(den@),
            bounds.1 == self.scaled_ceil(den@),
            -0x2_0000_0000_0000_0000 <= bounds.0 <= bounds.1 <= 0x2_0000_0000_0000_0000,
    {
        let floor = integer_root(radicand);
        let ceil = if floor * floor == radicand {
            floor
        } else {
            floor + 1
        };
        if self.interior {
            (shift - ceil as i128, shift - floor as i128)
        } else {
            (shift + floor as i128, shift + ceil as i128)
        }
    }

    /// The floor and the ceiling of `510 * 2^log_den * d`, or `None` where
    /// the distance is too large for them to be computed.
    fn scaled(&self, log_den: u32) -> (bounds: Option<(i128, i128)>)
        requires
            self.wf(),
            log_den <= 32,
        ensures
            bounds matches Some(b) ==> b.0 == self.scaled_floor(pow2(log_den as nat)) && b.1
                == self.scaled_ceil(pow2(log_den as nat)) && -0x2_0000_0000_0000_0000 <= b.0 <= b.1
                <= 0x2_0000_0000_0000_0000,
            bounds is None ==> if self.interior {
                self.scaled_ceil(pow2(log_den as nat)) <= -0x8000_0000_0000_0000
            } else {
                self.scaled_floor(pow2(log_den as nat)) >= 0x8000_0000_0000_0000
            },
            self.scaled_floor(pow2(log_den as nat)) <= self.scaled_ceil(pow2(log_den as nat)),
    {
        proof {
            lemma2_to64();
            if log_den < 32 {
                lemma_pow2_strictly_increases(log_den as nat, 32);
            }
            lemma_pow2_pos(log_den as nat);
            lemma_root_between(self.radicand(pow2(log_den as nat)), 0);
        }
        let den: u128 = power_of_two(log_den) as u128;
        assert(den * den <= 0x1_0000_0000 * 0x1_0000_0000) by (nonlinear_arith)
            requires
                0 <= den <= 0x1_0000_0000,
        ;
        let offset: i128 = 255 - 2 * (self.coverage as i128);
        assert(-0x1_0000_0000_0000 <= den * offset <= 0x1_0000_0000_0000) by (nonlinear_arith)
            requires
                0 <= den <= 0x1_0000_0000,
                -255 <= offset <= 255,
        ;
        let shift: i128 = den as i128 * offset;
        match self.scaled_norm().checked_mul(den * den) {
            None => {
                proof {
                    lemma_beyond_reach(*self, den as nat);
                }
                None
            },
            Some(radicand) => Some(self.bounds(radicand, shift, Ghost(den as nat))),
        }
    }

    /// Whether the distance of the key is below the radius in magnitude.
    pub fn within(&self, sdf: &SdfSettings) -> (within: bool)
        requires
            self.wf(),
            sdf.is_bounded(),
        ensures
            within == self.within_spec(*sdf),
    {
        let parts = sdf.parts();
        if parts.log_den > 32 {
            proof {
                lemma_pow2_from_33(parts.log_den as nat);
                lemma_below_every_key(*self, sdf.radius_num(), sdf.radius_den());
            }
            return false;
        }
        let bound: i128 = 510 * (parts.num as i128);
        match self.scaled(parts.log_den) {
            None => false,
            Some(bounds) => -bound < bounds.1 && bounds.0 < bound,
        }
    }

    /// The byte that stands for the distance of the key in a distance field
    /// of the given radius.
    pub fn byte(&self, sdf: &SdfSettings) -> (byte: u8)
        requires
            self.wf(),
            sdf.is_bounded(),
        ensures
            byte == self.byte_spec(*sdf),
    {
        let parts = sdf.parts();
        let bound: i128 = 510 * (parts.num as i128);
        let span: i128 = 4 * (parts.num as i128);
        if parts.log_den > 32 {
            proof {
                lemma_pow2_from_33(parts.log_den as nat);
                lemma_below_every_key(*self, sdf.radius_num(), sdf.radius_den());
                lemma_level_saturates(
                    self.scaled_floor(sdf.radius_den()),
                    sdf.radius_num() as int,
                );
            }
            let outward = if self.vector.0 == 0 && self.vector.1 == 0 {
                self.coverage <= 127
            } else {
                !self.interior
            };
            proof {
                lemma_norm_zero(self.vector.0 as int, self.vector.1 as int);
            }
            return if outward {
                FAR_OUTSIDE
            } else {
                FAR_INSIDE
            };
        }
        proof {
            lemma_level_saturates(self.scaled_floor(sdf.radius_den()), sdf.radius_num() as int);
        }
        match self.scaled(parts.log_den) {
            None => if self.interior {
                FAR_INSIDE
            } else {
                FAR_OUTSIDE
            },
            Some(bounds) => {
                let raised = bounds.0 + bound;
                if raised < 0 {
                    FAR_INSIDE
                } else {
                    let level = raised / span;
                    if level > 255 {
                        FAR_OUTSIDE
                    } else {
                        level as u8
                    }
                }
            },
        }
    }

    /// The rank of the key: its distance in magnitude, rounded down to units
    /// of 1 / (510 * 65536) of a pixel.
    pub fn rank(&self) -> (rank: u64)
        requires
            self.wf(),
        ensures
            rank == self.rank_spec(),
    {
        let scaled = self.scaled_norm();
        let radicand: u128 = scaled * 0x1_0000_0000;
        assert(RANK_DEN * RANK_DEN == 0x1_0000_0000) by (nonlinear_arith);
        let shift: i128 = 65536 * (255 - 2 * (self.coverage as i128));
        let (floor, ceil) = self.bounds(radicand, shift, Ghost(RANK_DEN as nat));
        proof {
            lemma_root_floor(radicand as nat);
            let r = root_floor(radicand as nat);
            if r >= 0x4000_0000_0000_0000 {
                assert(r * r >= 0x4000_0000_0000_0000 * 0x4000_0000_0000_0000) by (nonlinear_arith)
                    requires
                        r >= 0x4000_0000_0000_0000,
                ;
            }
        }
        if floor >= 0 {
            floor as u64
        } else {
            (-ceil) as u64
        }
    }
}

/// The two bounds enclose `510 * den * d`, and no whole number lies strictly
/// between them. With `r` for `510 * den * sqrt(vx^2 + vy^2)`, whose square
/// is the radicand, and `s` for `den * dist_num`: outside the glyph the
/// distance is `s + r`, and the bounds less `s` are the root of the radicand
/// rounded down and up; inside it is `s - r`, and `s` less the bounds are
/// that root rounded up and down.
pub proof fn lemma_scaled_bounds(key: PQKey, den: nat)
    ensures
        key.scaled_floor(den) <= key.scaled_ceil(den) <= key.scaled_floor(den) + 1,
        !key.interior ==> {
            let low = key.scaled_floor(den) - den * key.dist_num();
            let high = key.scaled_ceil(den) - den * key.dist_num();
            0 <= low && low * low <= key.radicand(den) < (low + 1) * (low + 1) && key.radicand(den)
                <= high * high
        },
        key.interior ==> {
            let low = den * key.dist_num() - key.scaled_ceil(den);
            let high = den * key.dist_num() - key.scaled_floor(den);
            0 <= low && low * low <= key.radicand(den) < (low + 1) * (low + 1) && key.radicand(den)
                <= high * high
        },
        key.scaled_floor(den) == key.scaled_ceil(den) <==> root_floor(key.radicand(den))
            * root_floor(key.radicand(den)) == key.radicand(den),
{
    lemma_root_floor(key.radicand(den));
}

/// A power of two with an exponent of 33 or more is at least 2^33.
pub proof fn lemma_pow2_from_33(e: nat)
    requires
        e >= 33,
    ensures
        pow2(e) >= 0x2_0000_0000,
{
    lemma2_to64();
    lemma_pow2_unfold(33);
    if e > 33 {
        lemma_pow2_strictly_increases(33, e);
    }
}

/// A sum of two squares is zero only where both numbers are.
pub proof fn lemma_norm_zero(x: int, y: int)
    ensures
        x * x + y * y >= 0,
        x * x + y * y == 0 <==> x == 0 && y == 0,
{
    assert(x * x >= 0 && y * y >= 0) by (nonlinear_arith);
    assert(x != 0 ==> x * x > 0) by (nonlinear_arith);
    assert(y != 0 ==> y * y > 0) by (nonlinear_arith);
    assert(x == 0 ==> x * x == 0) by (nonlinear_arith);
    assert(y == 0 ==> y * y == 0) by (nonlinear_arith);
}

/// Where the radicand of a key is beyond 128 bits, the key lies more than
/// 2^63 units from zero, on the side that its flag names.
pub proof fn lemma_beyond_reach(key: PQKey, den: nat)
    requires
        key.radicand(den) > u128::MAX,
        den <= 0x1_0000_0000,
    ensures
        !key.interior ==> key.scaled_floor(den) >= 0x8000_0000_0000_0000,
        key.interior ==> key.scaled_ceil(den) <= -0x8000_0000_0000_0000,
{
    let w = key.radicand(den);
    assert(0x1_0000_0000_0000_0000nat * 0x1_0000_0000_0000_0000nat <= w) by (nonlinear_arith)
        requires
            w > u128::MAX,
    ;
    lemma_root_between(w, 0x1_0000_0000_0000_0000);
    let offset = key.dist_num();
    assert(-0x1_0000_0000_0000 <= den * offset <= 0x1_0000_0000_0000) by (nonlinear_arith)
        requires
            0 <= den <= 0x1_0000_0000,
            -255 <= offset <= 255,
    ;
}

/// Where the radius `num / den` is below 1/510 of a pixel, every key lies a
/// radius or more from zero: at or above `den` units where it points outward,
/// at or below `-den` units where it points inward.
pub proof fn lemma_below_every_key(key: PQKey, num: nat, den: nat)
    requires
        0 < num,
        510 * num < den,
    ensures
        key.is_outward() ==> key.scaled_floor(den) >= den,
        !key.is_outward() ==> key.scaled_ceil(den) <= -den,
        key.scaled_floor(den) <= key.scaled_ceil(den),
        !(-510 * num < key.scaled_ceil(den) && key.scaled_floor(den) < 510 * num),
{
    let w = key.radicand(den);
    let n = key.norm_sq();
    let offset = key.dist_num();
    lemma_root_between(w, 0);
    if n == 0 {
        assert(w == 0) by (nonlinear_arith)
            requires
                w == 260100 * n * (den * den),
                n == 0,
        ;
        assert(0nat * 0nat == 0 && (0nat + 1) * (0nat + 1) == 1) by (nonlinear_arith);
        lemma_root_unique(0, 0);
        if key.coverage <= 127 {
            assert(den * offset >= den) by (nonlinear_arith)
                requires
                    offset >= 1,
                    den >= 0,
            ;
        } else {
            assert(den * offset <= -den) by (nonlinear_arith)
                requires
                    offset <= -1,
                    den >= 0,
            ;
        }
    } else {
        assert((510 * den) * (510 * den) <= w) by (nonlinear_arith)
            requires
                w == 260100 * n * (den * den),
                n >= 1,
                den >= 0,
        ;
        lemma_root_between(w, 510 * den);
        assert(-255 * den <= den * offset <= 255 * den) by (nonlinear_arith)
            requires
                -255 <= offset <= 255,
                den >= 0,
        ;
    }
}

/// The level of a distance `floor` (in units of 1 / (510 * den) of a pixel)
/// under a radius of `num / den`: it is below zero where the distance is
/// below minus the radius, and 255 or more where the distance is the radius
/// or more.
pub proof fn lemma_level_saturates(floor: int, num: int)
    requires
        0 < num,
    ensures
        floor + 510 * num < 0 ==> (floor + 510 * num) / (4 * num) < 0,
        floor + 510 * num >= 0 ==> (floor + 510 * num) / (4 * num) >= 0,
        floor >= 510 * num ==> (floor + 510 * num) / (4 * num) >= 255,
        floor < 510 * num ==> (floor + 510 * num) / (4 * num) < 255,
{
    let raised = floor + 510 * num;
    let span = 4 * num;
    let level = raised / span;
    assert(raised == span * level + raised % span && 0 <= raised % span < span) by (nonlinear_arith)
        requires
            span > 0,
            level == raised / span,
    ;
    assert(raised < 0 ==> level < 0) by (nonlinear_arith)
        requires
            raised == span * level + raised % span,
            0 <= raised % span < span,
            span > 0,
    ;
    assert(raised >= 0 ==> level >= 0) by (nonlinear_arith)
        requires
            raised == span * level + raised % span,
            0 <= raised % span < span,
            span > 0,
    ;
    assert(raised >= span * 255 ==> level >= 255) by (nonlinear_arith)
        requires
            raised == span * level + raised % span,
            0 <= raised % span < span,
            span > 0,
    ;
    assert(raised < span * 255 ==> level < 255) by (nonlinear_arith)
        requires
            raised == span * level + raised % span,
            0 <= raised % span < span,
            span > 0,
    ;
}

} // verus!
