//! Signed coefficients as a size and that many bits.
//!
//! A coefficient is written as the number of bits of its magnitude, its size, and the bits
//! themselves; a negative one is written as one less than its two's complement, so that its first
//! bit is zero.
use vstd::arithmetic::power2;
use vstd::prelude::*;

verus! {

/// The number of binary digits of `a`.
pub open spec fn bit_length(a: int) -> nat
    decreases a,
{
    if a <= 0 {
        0
    } else {
        1 + bit_length(a / 2)
    }
}

/// The magnitude of `v`.
pub open spec fn magnitude(v: int) -> int {
    if v < 0 {
        -v
    } else {
        v
    }
}

/// The bits that stand for `v` among those of `size` bits, as a number.
pub open spec fn amplitude_code(v: int, size: int) -> int {
    if v >= 0 {
        v
    } else {
        v + power2::pow2(size as nat) - 1
    }
}

/// Sizes for which a 32-bit coefficient exists.
pub open spec fn extend_defined(t: int) -> bool {
    0 <= t <= 30 || t == 32
}

/// The coefficient that `t` bits with the number `v` stand for.
pub open spec fn extended(v: int, t: int) -> int {
    if t == 0 {
        0
    } else if t <= 30 && v < power2::pow2((t - 1) as nat) {
        v - power2::pow2(t as nat) + 1
    } else {
        v
    }
}

/// A number of `n` digits lies between two powers of two.
pub proof fn lemma_bit_length(a: int)
    requires
        a >= 0,
    ensures
        a < power2::pow2(bit_length(a)),
        a > 0 ==> bit_length(a) > 0 && power2::pow2((bit_length(a) - 1) as nat) <= a,
    decreases a,
{
    power2::lemma2_to64();
    if a > 0 {
        lemma_bit_length(a / 2);
        power2::lemma_pow2_unfold(bit_length(a));
        if a / 2 > 0 {
            power2::lemma_pow2_unfold(bit_length(a / 2));
        } else {
            assert(bit_length(a / 2) == 0);
        }
    }
}

/// A number below two to the `n` has at most `n` digits.
pub proof fn lemma_bit_length_bound(a: int, n: nat)
    requires
        0 <= a < power2::pow2(n),
    ensures
        bit_length(a) <= n,
    decreases n,
{
    power2::lemma2_to64();
    if a > 0 && n > 0 {
        power2::lemma_pow2_unfold(n);
        lemma_bit_length_bound(a / 2, (n - 1) as nat);
    }
}

/// Reading back the bits that a coefficient is written with gives the coefficient.
pub proof fn law_amplitude_round_trip(v: int)
    requires
        bit_length(magnitude(v)) <= 30,
    ensures
        extended(amplitude_code(v, bit_length(magnitude(v)) as int), bit_length(magnitude(v)) as int)
            == v,
        0 <= amplitude_code(v, bit_length(magnitude(v)) as int) < power2::pow2(
            bit_length(magnitude(v)),
        ),
{
    let size = bit_length(magnitude(v));
    lemma_bit_length(magnitude(v));
    power2::lemma2_to64();
    if v != 0 {
        power2::lemma_pow2_unfold(size);
    }
}

/// The coefficient that `t` bits with the number `v` stand for.
pub fn extend(v: u16, t: u8) -> (r: i32)
    requires
        extend_defined(t as int),
    ensures
        r == extended(v as int, t as int),
{
    if t == 0 {
        return 0;
    }
    let v: i32 = v as i32;
    if t == 32 {
        return v;
    }
    proof {
        power2::lemma2_to64();
        power2::lemma_pow2_unfold(t as nat);
        power2::lemma_pow2_pos((t - 1) as nat);
        if t < 30 {
            power2::lemma_pow2_strictly_increases(t as nat, 30);
        }
        vstd::bits::lemma_u32_shl_is_mul(1, (t - 1) as u32);
        vstd::bits::lemma_u32_shl_is_mul(1, t as u32);
    }
    let vt: i32 = (1u32 << ((t - 1) as u32)) as i32;
    if v < vt {
        v - (1u32 << (t as u32)) as i32 + 1
    } else {
        v
    }
}

/// The number of bits of the magnitude of `v`.
pub fn category(v: i32) -> (n: u8)
    requires
        v != i32::MIN,
    ensures
        n == bit_length(magnitude(v as int)),
        n <= 31,
{
    let mut a: i32 = if v < 0 {
        -v
    } else {
        v
    };
    let mut n: u8 = 0;
    proof {
        power2::lemma2_to64();
        lemma_bit_length_bound(a as int, 31);
    }
    while a > 0
        invariant
            0 <= a,
            n + bit_length(a as int) == bit_length(magnitude(v as int)),
            bit_length(magnitude(v as int)) <= 31,
        decreases a,
    {
        n += 1;
        a = a / 2;
    }
    n
}

/// The bits of a size stand for the coefficients of just that size, each for the one that is written
/// with them.
pub proof fn law_extended(v: int, t: int)
    requires
        1 <= t <= 30,
        0 <= v < power2::pow2(t as nat),
    ensures
        bit_length(magnitude(extended(v, t))) == t,
        amplitude_code(extended(v, t), t) == v,
{
    power2::lemma_pow2_unfold(t as nat);
    power2::lemma_pow2_pos((t - 1) as nat);
    let m = magnitude(extended(v, t));
    lemma_bit_length_exact(m, t as nat);
}

/// A number between two powers of two has so many digits.
proof fn lemma_bit_length_exact(a: int, n: nat)
    requires
        n >= 1,
        power2::pow2((n - 1) as nat) <= a < power2::pow2(n),
    ensures
        bit_length(a) == n,
    decreases n,
{
    power2::lemma2_to64();
    power2::lemma_pow2_unfold(n);
    if n > 1 {
        power2::lemma_pow2_unfold((n - 1) as nat);
        power2::lemma_pow2_pos((n - 2) as nat);
        lemma_bit_length_exact(a / 2, (n - 1) as nat);
    } else {
        assert(a == 1);
        assert(bit_length(0) == 0);
    }
}

/// Of two bit patterns of one size the greater stands for the greater coefficient, and a pattern
/// with every bit turned over for the coefficient with the other sign.
pub proof fn law_extended_order(v: int, w: int, t: int)
    requires
        1 <= t <= 30,
        0 <= v < w < power2::pow2(t as nat),
    ensures
        extended(v, t) < extended(w, t),
        extended(power2::pow2(t as nat) - 1 - v, t) == -extended(v, t),
{
    power2::lemma_pow2_unfold(t as nat);
    power2::lemma_pow2_pos((t - 1) as nat);
}

} // verus!
