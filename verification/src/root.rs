//! Whole square roots: the floor and the ceiling of the square root of a
//! natural number.
use vstd::prelude::*;

verus! {

/// Whether `k` is the square root of `w` rounded down.
pub open spec fn is_root_floor(w: nat, k: nat) -> bool {
    k * k <= w < (k + 1) * (k + 1)
}

/// The square root of `w`, rounded down.
pub open spec fn root_floor(w: nat) -> nat {
    choose|k: nat| is_root_floor(w, k)
}

/// The square root of `w`, rounded up.
pub open spec fn root_ceil(w: nat) -> nat {
    if root_floor(w) * root_floor(w) == w {
        root_floor(w)
    } else {
        root_floor(w) + 1
    }
}

/// Every natural number has a rounded-down square root.
pub proof fn lemma_root_floor(w: nat)
    ensures
        is_root_floor(w, root_floor(w)),
    decreases w,
{
    if w == 0 {
        assert(0nat * 0nat == 0 && (0nat + 1) * (0nat + 1) == 1) by (nonlinear_arith);
        assert(is_root_floor(0, 0));
    } else {
        lemma_root_floor((w - 1) as nat);
        let k = root_floor((w - 1) as nat);
        if w < (k + 1) * (k + 1) {
            assert(is_root_floor(w, k));
        } else {
            assert((k + 2) * (k + 2) > (k + 1) * (k + 1)) by (nonlinear_arith);
            assert(is_root_floor(w, k + 1));
        }
    }
}

/// The rounded-down square root is the only number with its defining property.
pub proof fn lemma_root_unique(w: nat, k: nat)
    requires
        is_root_floor(w, k),
    ensures
        root_floor(w) == k,
{
    lemma_root_floor(w);
    let r = root_floor(w);
    if r < k {
        assert((r + 1) * (r + 1) <= k * k) by (nonlinear_arith)
            requires
                r + 1 <= k,
        ;
    } else if r > k {
        assert((k + 1) * (k + 1) <= r * r) by (nonlinear_arith)
            requires
                k + 1 <= r,
        ;
    }
}

/// A number whose square is at most `w` is at most the rounded-down root of
/// `w`, and one whose square is at least `w` is at least the rounded-up root.
pub proof fn lemma_root_between(w: nat, k: nat)
    ensures
        k * k <= w ==> k <= root_floor(w),
        k * k >= w ==> k >= root_ceil(w),
        k * k < w ==> k < root_ceil(w),
        k * k > w ==> k > root_floor(w),
        root_floor(w) <= root_ceil(w),
{
    lemma_root_floor(w);
    let r = root_floor(w);
    if k * k <= w && k > r {
        assert((r + 1) * (r + 1) <= k * k) by (nonlinear_arith)
            requires
                r + 1 <= k,
        ;
    }
    if k * k >= w && k < root_ceil(w) {
        if r * r == w {
            assert(k * k < r * r) by (nonlinear_arith)
                requires
                    0 <= k < r,
            ;
        } else {
            assert(k * k <= r * r) by (nonlinear_arith)
                requires
                    0 <= k <= r,
            ;
        }
    }
    if k * k < w && k >= root_ceil(w) {
        assert(k * k >= r * r) by (nonlinear_arith)
            requires
                k >= r,
        ;
        if r * r != w {
            assert(k * k >= (r + 1) * (r + 1)) by (nonlinear_arith)
                requires
                    k >= r + 1,
            ;
        }
    }
    if k * k > w && k <= r {
        assert(k * k <= r * r) by (nonlinear_arith)
            requires
                0 <= k <= r,
        ;
    }
}

/// The square root of `w`, rounded down.
pub fn integer_root(w: u128) -> (root: u128)
    ensures
        root == root_floor(w as nat),
        root * root <= w,
        root < 0x1_0000_0000_0000_0000,
{
    let mut low: u128 = 0;
    let mut high: u128 = 0x1_0000_0000_0000_0000;
    assert(w < 0x1_0000_0000_0000_0000 * 0x1_0000_0000_0000_0000) by (nonlinear_arith)
        requires
            w <= u128::MAX,
    ;
    while high - low > 1
        invariant
            low < high <= 0x1_0000_0000_0000_0000,
            low * low <= w < high * high,
        decreases high - low,
    {
        let middle: u128 = low + (high - low) / 2;
        assert(middle * middle <= 0xFFFF_FFFF_FFFF_FFFF * 0xFFFF_FFFF_FFFF_FFFF) by (nonlinear_arith)
            requires
                0 <= middle <= 0xFFFF_FFFF_FFFF_FFFF,
        ;
        if middle * middle <= w {
            low = middle;
        } else {
            high = middle;
        }
    }
    proof {
        assert(is_root_floor(w as nat, low as nat));
        lemma_root_unique(w as nat, low as nat);
    }
    low
}

} // verus!
