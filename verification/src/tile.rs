//! A tile: which power of two a cell shows. The exponent is at least 1,
//! since 2 is the lowest value a tile can display.

use vstd::prelude::*;
use vstd::arithmetic::power2::pow2;
use vstd::arithmetic::power2::lemma_pow2_strictly_increases;
use vstd::arithmetic::power2::lemma_pow2_unfold;

verus! {

/// A single cell's value, stored as its exponent: the displayed value is
/// 2^exponent. Two tiles are equal iff their exponents are.
#[derive(Debug, Copy, Clone, PartialEq, Eq, Structural)]
pub struct Tile(u32);

impl Tile {
    /// The exponent, as the model sees it.
    pub closed spec fn exp(&self) -> nat {
        self.0 as nat
    }

    /// A tile's exponent is positive: there is no tile worth 1 or 0.
    pub open spec fn inv(&self) -> bool {
        self.exp() >= 1
    }

    pub(crate) fn of_exp(e: u32) -> (t: Tile)
        requires
            e >= 1,
        ensures
            t.exp() == e as nat,
    {
        Tile(e)
    }

    /// Which power of two this tile is.
    pub fn exponent(&self) -> (r: u32)
        ensures
            r as nat == self.exp(),
    {
        self.0
    }

    /// The displayed value, 2^exponent.
    pub fn as_u32(&self) -> (r: u32)
        requires
            self.exp() <= 31,
        ensures
            r as nat == pow2(self.exp()),
    {
        let mut r: u32 = 1;
        let mut i: u32 = 0;
        proof {
            vstd::arithmetic::power2::lemma2_to64();
        }
        while i < self.0
            invariant
                i <= self.0 <= 31,
                r as nat == pow2(i as nat),
            decreases self.0 - i,
        {
            proof {
                if (i as nat) < 31 {
                    lemma_pow2_strictly_increases(i as nat, 31);
                    vstd::arithmetic::power2::lemma2_to64();
                }
                lemma_pow2_unfold((i + 1) as nat);
            }
            r = r * 2;
            i = i + 1;
        }
        r
    }
}

} // verus!
