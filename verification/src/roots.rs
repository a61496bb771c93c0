//! Integer square roots.

use num::integer::Roots;
use vstd::prelude::*;

verus! {

/// `r` is the square root of `n`, rounded down.
pub open spec fn is_root(n: nat, r: nat) -> bool {
    r * r <= n < (r + 1) * (r + 1)
}

/// The square root of `n`, rounded down.
pub open spec fn root(n: nat) -> nat {
    choose|r: nat| is_root(n, r)
}

/// A number has at most one rounded-down square root.
pub proof fn lemma_root_unique(n: nat, a: nat, b: nat)
    requires
        is_root(n, a),
        is_root(n, b),
    ensures
        a == b,
{
    if a < b {
        assert((a + 1) * (a + 1) <= b * b) by (nonlinear_arith)
            requires
                a + 1 <= b,
        ;
    } else if b < a {
        assert((b + 1) * (b + 1) <= a * a) by (nonlinear_arith)
            requires
                b + 1 <= a,
        ;
    }
}

/// Every number has a rounded-down square root, and `root` names it.
pub proof fn lemma_root(n: nat)
    ensures
        is_root(n, root(n)),
    decreases n,
{
    if n == 0 {
        assert(is_root(0, 0)) by (nonlinear_arith);
    } else {
        lemma_root((n - 1) as nat);
        let r = root((n - 1) as nat);
        if n < (r + 1) * (r + 1) {
            assert(is_root(n, r));
        } else {
            assert((r + 2) * (r + 2) > (r + 1) * (r + 1)) by (nonlinear_arith);
            assert(is_root(n, r + 1));
        }
    }
}

/// Whatever satisfies `is_root` is `root`.
pub proof fn lemma_root_is(n: nat, r: nat)
    requires
        is_root(n, r),
    ensures
        root(n) == r,
{
    lemma_root(n);
    lemma_root_unique(n, r, root(n));
}

/// The root of a square is its base.
pub proof fn lemma_root_of_square(r: nat)
    ensures
        root(r * r) == r,
{
    assert(r * r < (r + 1) * (r + 1)) by (nonlinear_arith);
    lemma_root_is(r * r, r);
}

/// Calls `num::integer::Roots::sqrt` on a `u128`. The crate documents the
/// result as the truncated square root `r`, with `r * r <= n < (r + 1) * (r + 1)`,
/// and the unsigned implementation has no panicking path.
#[verifier::external_body]
pub(crate) fn sqrt(n: u128) -> (r: u128)
    ensures
        is_root(n as nat, r as nat),
{
    Roots::sqrt(&n)
}

/// The square root of `n`, rounded down.
pub fn integer_sqrt(n: u128) -> (r: u128)
    ensures
        r == root(n as nat),
{
    let r: u128 = sqrt(n);
    proof {
        lemma_root_is(n as nat, r as nat);
    }
    r
}

} // verus!
