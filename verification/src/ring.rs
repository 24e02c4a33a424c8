//! Cyclic distance on a ring of a given size, together with small modular
//! helpers used when shifting digits around the ring.

use vstd::arithmetic::div_mod::{
    lemma_div_is_ordered, lemma_div_multiples_vanish, lemma_fundamental_div_mod_converse_mod,
    lemma_small_mod,
};
use vstd::prelude::*;

verus! {

/// The shortest distance between `a` and `b` on a ring of `m` positions:
/// the smaller of the clockwise distance `(a - b) mod m` and the
/// counter-clockwise distance `(b - a) mod m`.
pub open spec fn spec_distance(a: int, b: int, m: int) -> int
    recommends
        1 <= m,
{
    let cw = (a - b) % m;
    let ccw = (b - a) % m;
    if cw <= ccw {
        cw
    } else {
        ccw
    }
}

/// Minimum number of single steps from `a` to `b` on a ring of `modulus`
/// positions, moving forward or backward with wraparound.
pub fn modular_distance(a: u64, b: u64, modulus: u64) -> (r: u64)
    requires
        a < modulus,
        b < modulus,
    ensures
        r == spec_distance(a as int, b as int, modulus as int),
{
    let d: u64 = if a >= b {
        a - b
    } else {
        b - a
    };
    let e: u64 = modulus - d;
    proof {
        let mi = modulus as int;
        let di = d as int;
        lemma_small_mod(d as nat, modulus as nat);
        if d == 0 {
            assert((a - b) % mi == 0);
            assert((b - a) % mi == 0);
        } else {
            lemma_fundamental_div_mod_converse_mod(-di, mi, -1, mi - di);
            if a >= b {
                assert((a - b) % mi == di);
                assert((b - a) % mi == mi - di);
            } else {
                assert((b - a) % mi == di);
                assert((a - b) % mi == mi - di);
            }
        }
    }
    if d <= e {
        d
    } else {
        e
    }
}

/// The distance between any point and itself is zero.
pub proof fn lemma_distance_self_zero(a: int, m: int)
    requires
        1 <= m,
        0 <= a < m,
    ensures
        spec_distance(a, a, m) == 0,
{
    lemma_small_mod(0, m as nat);
}

/// The distance does not depend on the order of its two arguments.
pub proof fn lemma_distance_symmetric(a: int, b: int, m: int)
    requires
        1 <= m,
        0 <= a < m,
        0 <= b < m,
    ensures
        spec_distance(a, b, m) == spec_distance(b, a, m),
{
}

/// The distance is non-negative and never exceeds half the ring size,
/// rounded down: going the shorter way around never takes more than
/// `m / 2` steps.
pub proof fn lemma_distance_bound(a: int, b: int, m: int)
    requires
        1 <= m,
        0 <= a < m,
        0 <= b < m,
    ensures
        0 <= spec_distance(a, b, m) <= m / 2,
{
    let d = if a >= b {
        a - b
    } else {
        b - a
    };
    lemma_small_mod(d as nat, m as nat);
    if d == 0 {
        assert((a - b) % m == 0);
        assert((b - a) % m == 0);
        lemma_div_is_ordered(0, m, 2);
    } else {
        lemma_fundamental_div_mod_converse_mod(-d, m, -1, m - d);
        let s = spec_distance(a, b, m);
        assert(2 * s <= m);
        lemma_div_is_ordered(2 * s, m, 2);
        lemma_div_multiples_vanish(s, 2);
    }
}

/// `(a + b) mod m`, computed without the sum ever leaving `u64`.
pub(crate) fn ring_add(a: u64, b: u64, m: u64) -> (r: u64)
    requires
        a < m,
        b < m,
    ensures
        r == (a + b) % (m as int),
        r < m,
{
    if a >= m - b {
        proof {
            lemma_fundamental_div_mod_converse_mod(a + b, m as int, 1, a + b - m);
        }
        a - (m - b)
    } else {
        proof {
            lemma_small_mod((a + b) as nat, m as nat);
        }
        a + b
    }
}

/// `(a - b) mod m` with the remainder taken non-negative, computed without
/// any intermediate value leaving `u64`.
pub(crate) fn ring_sub(a: u64, b: u64, m: u64) -> (r: u64)
    requires
        a < m,
        b < m,
    ensures
        r == (a - b) % (m as int),
        r < m,
{
    if a >= b {
        proof {
            lemma_small_mod((a - b) as nat, m as nat);
        }
        a - b
    } else {
        proof {
            lemma_fundamental_div_mod_converse_mod(a - b, m as int, -1, a - b + m);
        }
        a + (m - b)
    }
}

} // verus!
