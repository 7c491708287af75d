//! Single-precision numbers by their bit pattern: which integer one stands
//! for, and how two of them compare.
use vstd::prelude::*;

verus! {

/// The integer that a single-precision bit pattern stands for, where it
/// stands for one that a 64-bit integer could come near.
pub open spec fn whole_real(bits: u32) -> Option<int> {
    let exponent = ((bits / 0x80_0000) % 256) as int;
    let mantissa = (bits % 0x80_0000) as int;
    let full = mantissa + 0x80_0000;
    let magnitude: Option<int> = if exponent == 0 {
        if mantissa == 0 {
            Some(0)
        } else {
            None
        }
    } else if exponent < 127 || exponent > 190 {
        None
    } else if exponent >= 150 {
        Some(full * two_to((exponent - 150) as nat))
    } else if full % two_to((150 - exponent) as nat) == 0 {
        Some(full / two_to((150 - exponent) as nat))
    } else {
        None
    };
    match magnitude {
        Some(m) => Some(
            if bits >= 0x8000_0000 {
                -m
            } else {
                m
            },
        ),
        None => None,
    }
}

/// Two to the power `n`.
pub open spec fn two_to(n: nat) -> int
    decreases n,
{
    if n == 0 {
        1
    } else {
        2 * two_to((n - 1) as nat)
    }
}

/// Two to the power `n`, for the powers that fit.
fn power_of_two(n: u32) -> (r: i128)
    requires
        n <= 64,
    ensures
        r == two_to(n as nat),
        1 <= r <= 0x1_0000_0000_0000_0000,
{
    let mut r: i128 = 1;
    let mut k: u32 = 0;
    assert(two_to(64) == 0x1_0000_0000_0000_0000) by {
        reveal_with_fuel(two_to, 65);
    }
    assert(two_to(0) == 1);
    while k < n
        invariant
            k <= n <= 64,
            r == two_to(k as nat),
            1 <= r,
            r * two_to((64 - k) as nat) == 0x1_0000_0000_0000_0000,
            r <= 0x1_0000_0000_0000_0000,
        decreases n - k,
    {
        proof {
            let q = two_to((63 - k) as nat);
            assert(two_to((64 - k) as nat) == 2 * q);
            assert((2 * r) * q == r * (2 * q)) by (nonlinear_arith);
            lemma_two_to_positive((63 - k) as nat);
            assert(2 * r <= 0x1_0000_0000_0000_0000) by (nonlinear_arith)
                requires
                    (2 * r) * q == 0x1_0000_0000_0000_0000,
                    q >= 1,
                    r >= 1,
            ;
        }
        r = 2 * r;
        k += 1;
    }
    r
}

proof fn lemma_two_to_positive(n: nat)
    ensures
        two_to(n) >= 1,
    decreases n,
{
    if n > 0 {
        lemma_two_to_positive((n - 1) as nat);
    }
}

pub fn real_as_integer(bits: u32) -> (r: Option<i128>)
    ensures
        match r {
            Some(v) => whole_real(bits) == Some(v as int),
            None => whole_real(bits) is None,
        },
{
    let exponent: u32 = (bits / 0x80_0000) % 256;
    let mantissa: u32 = bits % 0x80_0000;
    let full: i128 = mantissa as i128 + 0x80_0000;
    let magnitude: i128 = if exponent == 0 {
        if mantissa != 0 {
            return None;
        }
        0
    } else if exponent < 127 || exponent > 190 {
        return None;
    } else if exponent >= 150 {
        let p = power_of_two(exponent - 150);
        assert(full * p <= 0x100_0000 * 0x1_0000_0000_0000_0000) by (nonlinear_arith)
            requires
                0 <= full <= 0x100_0000,
                1 <= p <= 0x1_0000_0000_0000_0000,
        ;
        full * p
    } else {
        let p = power_of_two(150 - exponent);
        if full % p != 0 {
            return None;
        }
        full / p
    };
    if bits >= 0x8000_0000 {
        Some(-magnitude)
    } else {
        Some(magnitude)
    }
}


/// A single-precision number, held as its bit pattern.
#[derive(Clone, Copy, Debug, PartialEq, Eq, Structural)]
pub struct Single {
    pub bits: u32,
}

/// Whether the pattern stands for no number.
pub open spec fn is_nan(bits: u32) -> bool {
    bits % 0x8000_0000 > 0x7f80_0000
}

/// An integer that orders the patterns as the numbers they stand for.
pub open spec fn rank(bits: u32) -> int {
    if bits >= 0x8000_0000 {
        -(bits - 0x8000_0000)
    } else {
        bits as int
    }
}

/// `a >= b` as numbers.
pub open spec fn at_least(a: Single, b: Single) -> bool {
    !is_nan(a.bits) && !is_nan(b.bits) && rank(a.bits) >= rank(b.bits)
}

/// `a > b` as numbers.
pub open spec fn above(a: Single, b: Single) -> bool {
    !is_nan(a.bits) && !is_nan(b.bits) && rank(a.bits) > rank(b.bits)
}

/// The number stands for the integer `n`.
pub open spec fn reads(a: Single, n: int) -> bool {
    whole_real(a.bits) == Some(n)
}

/// The resolutions that presets use.
pub proof fn lemma_resolutions()
    ensures
        reads(Single { bits: 0xbf80_0000 }, -1),
        reads(Single { bits: 0x4290_0000 }, 72),
        reads(Single { bits: 0x42dc_0000 }, 110),
        reads(Single { bits: 0x4316_0000 }, 150),
        reads(Single { bits: 0x4348_0000 }, 200),
        reads(Single { bits: 0x43c8_0000 }, 400),
{
    assert(two_to(15) == 0x8000) by {
        reveal_with_fuel(two_to, 16);
    }
    assert(two_to(16) == 0x1_0000);
    assert(two_to(17) == 0x2_0000);
    assert(two_to(18) == 0x4_0000);
    assert(two_to(19) == 0x8_0000);
    assert(two_to(20) == 0x10_0000);
    assert(two_to(21) == 0x20_0000);
    assert(two_to(22) == 0x40_0000);
    assert(two_to(23) == 0x80_0000);
}

fn rank_of(bits: u32) -> (r: i64)
    ensures
        r == rank(bits),
{
    if bits >= 0x8000_0000 {
        -((bits - 0x8000_0000) as i64)
    } else {
        bits as i64
    }
}

impl Single {
    /// `self >= other` as numbers.
    pub fn at_least(self, other: Single) -> (r: bool)
        ensures
            r == at_least(self, other),
    {
        self.bits % 0x8000_0000 <= 0x7f80_0000 && other.bits % 0x8000_0000 <= 0x7f80_0000
            && rank_of(self.bits) >= rank_of(other.bits)
    }

    /// `self > other` as numbers.
    pub fn above(self, other: Single) -> (r: bool)
        ensures
            r == above(self, other),
    {
        self.bits % 0x8000_0000 <= 0x7f80_0000 && other.bits % 0x8000_0000 <= 0x7f80_0000
            && rank_of(self.bits) > rank_of(other.bits)
    }
}

} // verus!
