//! Properties of unsigned integers.
use vstd::prelude::*;

verus! {

/// `x` is the square of some natural number.
pub open spec fn is_square(x: int) -> bool {
    exists|r: nat| #[trigger] (r * r) == x
}

/// Relies on `u64::isqrt`: the square root, rounded down.
#[verifier::external_body]
fn isqrt_u64(x: u64) -> (r: u64)
    ensures
        r * r <= x < (r + 1) * (r + 1),
{
    x.isqrt()
}

/// Relies on `u128::isqrt`: the square root, rounded down.
#[verifier::external_body]
fn isqrt_u128(x: u128) -> (r: u128)
    ensures
        r * r <= x < (r + 1) * (r + 1),
{
    x.isqrt()
}

/// With `r` the rounded-down square root of `x`, `x` is a square exactly when `r * r == x`.
proof fn lemma_square_by_root(x: int, r: int)
    requires
        0 <= r,
        r * r <= x < (r + 1) * (r + 1),
    ensures
        is_square(x) == (r * r == x),
{
    if r * r == x {
        assert((r as nat) * (r as nat) == x);
    } else if is_square(x) {
        let s = choose|s: nat| #[trigger] (s * s) == x;
        if s <= r {
            assert(s * s <= r * r) by (nonlinear_arith)
                requires
                    0 <= s <= r,
            ;
        } else {
            assert(s * s >= (r + 1) * (r + 1)) by (nonlinear_arith)
                requires
                    s >= r + 1,
                    r >= 0,
            ;
        }
    }
}

pub trait IntegerProperties: Sized {
    /// The number as a mathematical integer.
    spec fn value(self) -> int;

    /// Whether the number is the square of an integer.
    fn is_perfect_square(self) -> (r: bool)
        ensures
            r == is_square(self.value()),
    ;
}

impl IntegerProperties for u64 {
    open spec fn value(self) -> int {
        self as int
    }

    fn is_perfect_square(self) -> (r: bool) {
        let root = isqrt_u64(self);
        proof {
            lemma_square_by_root(self as int, root as int);
        }
        root * root == self
    }
}

impl IntegerProperties for u128 {
    open spec fn value(self) -> int {
        self as int
    }

    fn is_perfect_square(self) -> (r: bool) {
        let root = isqrt_u128(self);
        proof {
            lemma_square_by_root(self as int, root as int);
        }
        root * root == self
    }
}

} // verus!
