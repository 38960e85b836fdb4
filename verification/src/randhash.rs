//! Deterministic integer helpers shared by the generators.
//!
//! `floor_div` is the signed fixed-point division used by the density
//! formula. `coord_hash` is a pure multiplicative hash of integer
//! coordinates in `[0, HASH_ONE)`: scatter decisions depend only on the
//! hashed world coordinates, never on generation order. `Lcg` is a small
//! seeded generator used by the constraint solver's collapse choice.

use vstd::prelude::*;
use vstd::arithmetic::div_mod::lemma_fundamental_div_mod_converse;

verus! {

/// One unit of hash probability space: hashes lie in `[0, HASH_ONE)`.
pub const HASH_ONE: u64 = 65536;

/// Salt for the vine placement gate.
pub const SALT_VINE: u64 = 7384;
/// Salt for the vine length draw.
pub const SALT_VINE_LEN: u64 = 121;
/// Salt for the tree placement gate.
pub const SALT_TREE: u64 = 9572;
/// Salt for the tree size draw.
pub const SALT_TREE_SIZE: u64 = 3571;

/// Floor division of `a` by a positive divisor `b`, as the mathematical
/// quotient `a / b` on `int` (which rounds toward negative infinity for
/// positive divisors).
pub fn floor_div(a: i64, b: i64) -> (r: i64)
    requires
        1 <= b,
        -0x1000_0000_0000_0000 <= a <= 0x1000_0000_0000_0000,
        b <= 0x1000_0000_0000_0000,
    ensures
        r == a as int / b as int,
{
    if a >= 0 {
        let q: u64 = (a as u64) / (b as u64);
        q as i64
    } else {
        let m: u64 = (-a) as u64;
        let bu: u64 = b as u64;
        let q: u64 = (m + bu - 1) / bu;
        proof {
            let mi = m as int;
            let bi = b as int;
            let qi = q as int;
            // q is the ceiling of m / b, so b*q - m lies in [0, b).
            assert(qi == (mi + bi - 1) / bi);
            assert((mi + bi - 1) == bi * ((mi + bi - 1) / bi) + (mi + bi - 1) % bi) by {
                vstd::arithmetic::div_mod::lemma_fundamental_div_mod(mi + bi - 1, bi);
            }
            assert(0 <= (mi + bi - 1) % bi < bi) by {
                vstd::arithmetic::div_mod::lemma_mod_bound(mi + bi - 1, bi);
            }
            let r_int = bi * qi - mi;
            assert(0 <= r_int < bi);
            assert(a as int == (-qi) * bi + r_int) by (nonlinear_arith)
                requires
                    a as int == -mi,
                    r_int == bi * qi - mi,
            {
            }
            lemma_fundamental_div_mod_converse(a as int, bi, -qi, r_int);
        }
        -(q as i64)
    }
}

/// The coordinate hash as a mathematical value in `[0, HASH_ONE)`.
///
/// Two rounds of multiplicative mixing modulo `2^32`, keeping the top
/// 16 bits: a pure function of the coordinates and the salt.
pub open spec fn coord_hash_spec(x: i32, y: i32, z: i32, salt: u64) -> int {
    let ux = (x as u32) as int;
    let uy = (y as u32) as int;
    let uz = (z as u32) as int;
    let m0 = ((ux * 3266489917) % 0x1_0000_0000 + (uy * 668265263) % 0x1_0000_0000 + (uz
        * 374761393) % 0x1_0000_0000 + ((salt as int) * 2246822519) % 0x1_0000_0000)
        % 0x1_0000_0000;
    let m1 = (m0 * 2654435761) % 0x1_0000_0000;
    let m2 = ((m1 / 65536 + m1) * 2246822519) % 0x1_0000_0000;
    m2 / 65536
}

/// Hashes integer coordinates and a salt to a value in `[0, HASH_ONE)`.
pub fn coord_hash(x: i32, y: i32, z: i32, salt: u64) -> (r: u64)
    requires
        salt < 0x1_0000_0000,
    ensures
        r == coord_hash_spec(x, y, z, salt),
        r < HASH_ONE,
{
    let ux: u64 = (x as u32) as u64;
    let uy: u64 = (y as u32) as u64;
    let uz: u64 = (z as u32) as u64;
    let m0: u64 = ((ux * 3266489917) % 0x1_0000_0000 + (uy * 668265263) % 0x1_0000_0000 + (uz
        * 374761393) % 0x1_0000_0000 + (salt * 2246822519) % 0x1_0000_0000)
        % 0x1_0000_0000;
    let m1: u64 = (m0 * 2654435761) % 0x1_0000_0000;
    let m2: u64 = ((m1 / 65536 + m1) * 2246822519) % 0x1_0000_0000;
    m2 / 65536
}

/// Seeded Lehmer linear-congruential generator over the prime `2^31 - 1`.
///
/// Supplies the uniform collapse choice of the constraint solver; a fixed
/// seed gives a reproducible solve.
#[derive(Clone, Copy, PartialEq, Eq, Structural, Debug)]
pub struct Lcg {
    /// Current state, always in `[1, 2^31 - 1)`.
    pub state: u64,
}

/// The Lehmer modulus `2^31 - 1`.
pub const LCG_MOD: u64 = 0x7fff_ffff;

impl Lcg {
    /// State validity: nonzero and below the modulus.
    pub open spec fn wf(self) -> bool {
        1 <= self.state < LCG_MOD
    }

    /// Creates a generator from an arbitrary seed.
    pub fn new(seed: u64) -> (r: Lcg)
        ensures
            r.wf(),
    {
        let s: u64 = seed % (LCG_MOD - 1) + 1;
        Lcg { state: s }
    }

    /// The successor state as a mathematical value.
    pub open spec fn next_spec(state: u64) -> int {
        ((state as int) * 48271) % (LCG_MOD as int)
    }

    /// Advances the generator and returns a value below `bound`.
    pub fn next_below(&mut self, bound: u64) -> (r: u64)
        requires
            old(self).wf(),
            1 <= bound,
        ensures
            final(self).wf(),
            final(self).state == (if Lcg::next_spec(old(self).state) == 0 {
                1int
            } else {
                Lcg::next_spec(old(self).state)
            }),
            r == final(self).state as int % bound as int,
            r < bound,
    {
        let mut s: u64 = (self.state * 48271) % LCG_MOD;
        if s == 0 {
            // The multiplier is coprime to the prime modulus, so a
            // nonzero state never steps to zero; this guard only keeps
            // the nonzero invariant without a number-theoretic argument.
            s = 1;
        }
        self.state = s;
        s % bound
    }
}

} // verus!
