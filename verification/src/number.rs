//! Real readings, carried by their bit pattern.
//!
//! Every reading the model bands on is an IEEE 754 double. The library never
//! computes with one: it compares them, tests them and passes them on. So a
//! reading is held as the 64 bits that encode it, and comparing two readings is
//! comparing two integers.
use vstd::arithmetic::power2::{lemma_pow2_adds, lemma_pow2_pos, lemma_pow2_unfold, pow2};
use vstd::prelude::*;

verus! {

/// The first bit pattern with the sign bit set.
pub const SIGN: u64 = 0x8000_0000_0000_0000;

/// The magnitude of infinity. Finite numbers lie below it, NaNs above.
pub const INFINITE: u64 = 0x7FF0_0000_0000_0000;

/// A double-precision number.
#[derive(Clone, Copy, Debug, Default, PartialEq, Eq, Structural)]
pub struct Real {
    /// The IEEE 754 binary64 encoding.
    pub bits: u64,
}

/// How two readings stand to each other. `Same` also stands for a pair that has
/// no order, which is any pair with a NaN in it.
#[derive(Clone, Copy, Debug, PartialEq, Eq, Structural)]
pub enum Standing {
    Below,
    Same,
    Above,
}

impl Real {
    /// The bits below the sign.
    pub open spec fn magnitude(self) -> int {
        if self.bits >= SIGN {
            self.bits - SIGN
        } else {
            self.bits as int
        }
    }

    pub open spec fn nan(self) -> bool {
        self.magnitude() > INFINITE
    }

    pub open spec fn finite(self) -> bool {
        self.magnitude() < INFINITE
    }

    /// The place of a number on the line: doubles are ordered as sign-magnitude
    /// integers, and the two zeros share a place.
    pub open spec fn place(self) -> int {
        if self.bits >= SIGN {
            -self.magnitude()
        } else {
            self.magnitude()
        }
    }

    /// `self < other`, false whenever a NaN takes part.
    pub open spec fn below(self, other: Real) -> bool {
        !self.nan() && !other.nan() && self.place() < other.place()
    }

    /// `self <= other`, false whenever a NaN takes part.
    pub open spec fn at_most(self, other: Real) -> bool {
        !self.nan() && !other.nan() && self.place() <= other.place()
    }

    /// `self == other` as numbers: the zeros are equal, a NaN equals nothing.
    pub open spec fn same(self, other: Real) -> bool {
        !self.nan() && !other.nan() && self.place() == other.place()
    }

    /// The number with its sign dropped.
    pub open spec fn size(self) -> Real {
        Real { bits: self.magnitude() as u64 }
    }

    /// The number with the other sign.
    pub open spec fn negated(self) -> Real {
        if self.bits >= SIGN {
            Real { bits: (self.bits - SIGN) as u64 }
        } else {
            Real { bits: (self.bits + SIGN) as u64 }
        }
    }

    /// The larger of two numbers. A NaN gives way to the other one.
    pub open spec fn larger(self, other: Real) -> Real {
        if self.nan() {
            other
        } else if other.nan() {
            self
        } else if self.place() < other.place() {
            other
        } else {
            self
        }
    }

    pub open spec fn standing(self, other: Real) -> Standing {
        if self.below(other) {
            Standing::Below
        } else if other.below(self) {
            Standing::Above
        } else {
            Standing::Same
        }
    }

    pub fn from_bits(bits: u64) -> (r: Real)
        ensures
            r.bits == bits,
    {
        Real { bits }
    }

    fn signed(self) -> (r: i64)
        ensures
            r == self.place(),
    {
        if self.bits >= SIGN {
            -((self.bits - SIGN) as i64)
        } else {
            self.bits as i64
        }
    }

    pub fn is_nan(self) -> (r: bool)
        ensures
            r == self.nan(),
    {
        if self.bits >= SIGN {
            self.bits - SIGN > INFINITE
        } else {
            self.bits > INFINITE
        }
    }

    pub fn is_finite(self) -> (r: bool)
        ensures
            r == self.finite(),
    {
        if self.bits >= SIGN {
            self.bits - SIGN < INFINITE
        } else {
            self.bits < INFINITE
        }
    }

    pub fn is_below(self, other: Real) -> (r: bool)
        ensures
            r == self.below(other),
    {
        !self.is_nan() && !other.is_nan() && self.signed() < other.signed()
    }

    pub fn is_at_most(self, other: Real) -> (r: bool)
        ensures
            r == self.at_most(other),
    {
        !self.is_nan() && !other.is_nan() && self.signed() <= other.signed()
    }

    pub fn is_same(self, other: Real) -> (r: bool)
        ensures
            r == self.same(other),
    {
        !self.is_nan() && !other.is_nan() && self.signed() == other.signed()
    }

    pub fn abs(self) -> (r: Real)
        ensures
            r == self.size(),
    {
        if self.bits >= SIGN {
            Real { bits: self.bits - SIGN }
        } else {
            self
        }
    }

    pub fn max(self, other: Real) -> (r: Real)
        ensures
            r == self.larger(other),
    {
        if self.is_nan() {
            other
        } else if other.is_nan() {
            self
        } else if self.signed() < other.signed() {
            other
        } else {
            self
        }
    }

    pub fn stands(self, other: Real) -> (r: Standing)
        ensures
            r == self.standing(other),
    {
        if self.is_below(other) {
            Standing::Below
        } else if other.is_below(self) {
            Standing::Above
        } else {
            Standing::Same
        }
    }

    /// The double nearest to a whole number, ties to even.
    pub fn from_u64(n: u64) -> (r: Real)
        ensures
            r == real_of(n as nat),
    {
        if n == 0 {
            return Real { bits: 0 };
        }
        let mut m: u64 = n;
        let mut e: u64 = 63;
        proof {
            lemma_exponent_bounds(n as nat);
            lemma2_to64();
        }
        let ghost top = exponent(n as nat);
        proof {
            if top >= 64 {
                lemma_pow2_increases(64, top);
            }
            assert(n * pow2(0) == n) by (nonlinear_arith)
                requires
                    pow2(0) == 1,
            ;
        }
        while m < SIGN
            invariant
                0 < n,
                top == exponent(n as nat),
                pow2(top) <= n < pow2(top + 1),
                top <= e <= 63,
                m == n * pow2((63 - e) as nat),
                pow2(63) == SIGN,
                0 < m,
            decreases e,
        {
            proof {
                if e == top {
                    lemma_pow2_adds(top, (63 - e) as nat);
                    assert(n * pow2((63 - e) as nat) >= pow2(top) * pow2((63 - e) as nat))
                        by (nonlinear_arith)
                        requires
                            n >= pow2(top),
                            pow2((63 - e) as nat) >= 0,
                    ;
                    assert(false);
                }
                lemma_pow2_unfold((63 - (e - 1)) as nat);
                assert(n * (2 * pow2((63 - e) as nat)) == 2 * (n * pow2((63 - e) as nat)))
                    by (nonlinear_arith);
            }
            m = m * 2;
            e = e - 1;
        }
        proof {
            if e > top {
                lemma_pow2_adds(top + 1, (63 - e) as nat);
                lemma_pow2_increases((top + 1 + 63 - e) as nat, 63);
                assert(n * pow2((63 - e) as nat) < pow2(top + 1) * pow2((63 - e) as nat))
                    by (nonlinear_arith)
                    requires
                        n < pow2(top + 1),
                        pow2((63 - e) as nat) > 0,
                {
                }
                assert(false);
            }
        }
        let sig: u64 = m / 2048;
        let rest: u64 = m % 2048;
        let up: u64 = if rest > 1024 || (rest == 1024 && sig % 2 == 1) {
            1
        } else {
            0
        };
        Real { bits: (e + 1023) * 0x10_0000_0000_0000 + (sig - 0x10_0000_0000_0000) + up }
    }
}

/// The place of the leading one bit of `n`.
pub open spec fn exponent(n: nat) -> nat
    decreases n,
{
    if n <= 1 {
        0
    } else {
        exponent(n / 2) + 1
    }
}

/// The double nearest to the whole number `n`, for `n` below `2^64`: the
/// significand keeps the 53 leading bits, and what is cut off rounds it, half to
/// even.
pub open spec fn real_of(n: nat) -> Real {
    if n == 0 {
        Real { bits: 0 }
    } else {
        let e = exponent(n);
        let m = n * pow2((63 - e) as nat);
        let sig = m / 2048;
        let rest = m % 2048;
        let up: int = if rest > 1024 || (rest == 1024 && sig % 2 == 1) {
            1
        } else {
            0
        };
        Real { bits: ((e + 1023) * 0x10_0000_0000_0000 + (sig - 0x10_0000_0000_0000) + up) as u64 }
    }
}

proof fn lemma2_to64()
    ensures
        pow2(0) == 1,
        pow2(63) == 0x8000_0000_0000_0000,
        pow2(64) == 0x1_0000_0000_0000_0000,
{
    vstd::arithmetic::power2::lemma2_to64();
    vstd::arithmetic::power2::lemma2_to64_rest();
}

proof fn lemma_pow2_increases(a: nat, b: nat)
    requires
        a <= b,
    ensures
        pow2(a) <= pow2(b),
{
    if a < b {
        vstd::arithmetic::power2::lemma_pow2_strictly_increases(a, b);
    }
}

proof fn lemma_exponent_bounds(n: nat)
    requires
        n > 0,
    ensures
        pow2(exponent(n)) <= n < pow2(exponent(n) + 1),
    decreases n,
{
    lemma2_to64();
    if n > 1 {
        lemma_exponent_bounds(n / 2);
        lemma_pow2_unfold(exponent(n));
        lemma_pow2_unfold(exponent(n) + 1);
    } else {
        lemma_pow2_unfold(1);
    }
}

/// The significand of a whole number fills 64 bits once it is shifted up.
proof fn lemma_shifted(n: nat)
    requires
        0 < n < 0x1_0000_0000_0000_0000,
    ensures
        exponent(n) <= 63,
        0x8000_0000_0000_0000 <= n * pow2((63 - exponent(n)) as nat) < 0x1_0000_0000_0000_0000,
{
    lemma2_to64();
    lemma_exponent_bounds(n);
    let e = exponent(n);
    if e >= 64 {
        lemma_pow2_increases(64, e);
    }
    let k = (63 - e) as nat;
    lemma_pow2_adds(e, k);
    lemma_pow2_adds(e + 1, k);
    lemma_pow2_pos(k);
    let p = pow2(k);
    assert(pow2(e) * p <= n * p < pow2(e + 1) * p) by (nonlinear_arith)
        requires
            pow2(e) <= n < pow2(e + 1),
            p > 0,
    ;
}

proof fn lemma_exponent_order(a: nat, b: nat)
    requires
        a <= b,
    ensures
        exponent(a) <= exponent(b),
    decreases b,
{
    if a > 1 {
        lemma_exponent_order(a / 2, b / 2);
    }
}

/// Turning whole numbers into doubles never swaps two of them.
pub proof fn law_whole_numbers_keep_their_order(a: nat, b: nat)
    requires
        a <= b < 0x1_0000_0000_0000_0000,
    ensures
        real_of(a).finite(),
        real_of(b).finite(),
        real_of(a).place() <= real_of(b).place(),
{
    if b > 0 {
        lemma_shifted(b);
    }
    if a > 0 {
        lemma_shifted(a);
        lemma_exponent_order(a, b);
        let ea = exponent(a);
        let eb = exponent(b);
        if ea == eb {
            let p = pow2((63 - ea) as nat);
            assert(a * p <= b * p) by (nonlinear_arith)
                requires
                    a <= b,
                    p >= 0,
            ;
        }
    }
}

/// Below `2^53` every whole number has a double of its own.
pub proof fn law_small_whole_numbers_stay_apart(a: nat, b: nat)
    requires
        a < b < 0x20_0000_0000_0000,
    ensures
        real_of(a).place() < real_of(b).place(),
{
    lemma_shifted(b);
    if a > 0 {
        lemma_shifted(a);
        lemma_exponent_order(a, b);
        lemma_whole(a);
        let ea = exponent(a);
        let eb = exponent(b);
        if ea == eb {
            lemma_whole(b);
            let p = pow2((63 - ea) as nat);
            assert(a * p < b * p) by (nonlinear_arith)
                requires
                    a < b,
                    p > 0,
            {
            }
        }
    }
}

/// Nothing is cut off a number of at most 53 bits.
proof fn lemma_whole(n: nat)
    requires
        0 < n < 0x20_0000_0000_0000,
    ensures
        pow2((63 - exponent(n)) as nat) > 0,
        (n * pow2((63 - exponent(n)) as nat)) % 2048 == 0,
{
    lemma_exponent_bounds(n);
    vstd::arithmetic::power2::lemma2_to64();
    vstd::arithmetic::power2::lemma2_to64_rest();
    let e = exponent(n);
    if e >= 53 {
        lemma_pow2_increases(53, e);
    }
    let k = (63 - e) as nat;
    lemma_pow2_pos(k);
    lemma_pow2_adds(11, (k - 11) as nat);
    let q = pow2((k - 11) as nat);
    assert(n * (2048 * q) == 2048 * (n * q)) by (nonlinear_arith);
    assert((2048 * (n * q)) % 2048 == 0) by (nonlinear_arith);
}

} // verus!
