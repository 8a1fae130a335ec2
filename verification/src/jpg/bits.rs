//! Sequences of bits: how numbers and bytes are spelled out, most significant bit first.
use vstd::arithmetic::power2;
use vstd::prelude::*;

verus! {

/// Bit `i` of `v`, counted from the least significant one.
pub open spec fn nth_bit(v: u32, i: int) -> bool {
    (v >> (i as u32)) & 1 == 1
}

/// The `n` low bits of `v`, most significant first.
pub open spec fn low_bits(v: u32, n: nat) -> Seq<bool> {
    Seq::new(n, |i: int| nth_bit(v, n - 1 - i))
}

/// The bits of a sequence of bytes, each byte from its most significant bit down.
pub open spec fn bits_of(bytes: Seq<u8>) -> Seq<bool> {
    Seq::new(8 * bytes.len(), |i: int| nth_bit(bytes[i / 8] as u32, 7 - i % 8))
}

/// One bit as a number.
pub open spec fn bit_value(b: bool) -> int {
    if b {
        1
    } else {
        0
    }
}

/// The number that `n` bits spell, starting at position `p` of `bits`.
pub open spec fn value_at(bits: Seq<bool>, p: int, n: int) -> int
    decreases n,
{
    if n <= 0 {
        0
    } else {
        2 * value_at(bits, p, n - 1) + bit_value(bits[p + n - 1])
    }
}

/// `n` bits spell a number below two to the `n`.
pub proof fn lemma_value_range(bits: Seq<bool>, p: int, n: int)
    requires
        n >= 0,
    ensures
        0 <= value_at(bits, p, n) < power2::pow2(n as nat),
    decreases n,
{
    if n > 0 {
        lemma_value_range(bits, p, n - 1);
        power2::lemma_pow2_unfold(n as nat);
    } else {
        power2::lemma2_to64();
    }
}

/// The number spelled depends on nothing but the bits it is spelled with.
pub proof fn lemma_value_same(a: Seq<bool>, p: int, b: Seq<bool>, q: int, n: int)
    requires
        forall|i: int| 0 <= i < n ==> #[trigger] a[p + i] == b[q + i],
    ensures
        value_at(a, p, n) == value_at(b, q, n),
    decreases n,
{
    if n > 0 {
        lemma_value_same(a, p, b, q, n - 1);
        assert(a[p + (n - 1)] == b[q + (n - 1)]);
    }
}

/// Spelling a number with enough bits and reading it back gives the number.
pub proof fn lemma_value_of_low_bits(bits: Seq<bool>, p: int, v: u32, n: int)
    requires
        0 <= n <= 32,
        v < power2::pow2(n as nat),
        forall|i: int| 0 <= i < n ==> #[trigger] bits[p + i] == nth_bit(v, n - 1 - i),
    ensures
        value_at(bits, p, n) == v,
    decreases n,
{
    power2::lemma2_to64();
    if n > 0 {
        let w = v >> 1u32;
        assert(w == v / 2) by (bit_vector)
            requires
                w == v >> 1u32,
        ;
        power2::lemma_pow2_unfold(n as nat);
        assert forall|i: int| 0 <= i < n - 1 implies #[trigger] bits[p + i] == nth_bit(
            w,
            n - 2 - i,
        ) by {
            let a = (n - 2 - i) as u32;
            let b = (n - 1 - i) as u32;
            assert((w >> a) & 1 == (v >> b) & 1) by (bit_vector)
                requires
                    w == v >> 1u32,
                    b == a + 1,
                    b < 32,
            ;
        }
        lemma_value_of_low_bits(bits, p, w, n - 1);
        assert(bits[p + (n - 1)] == nth_bit(v, 0));
        assert((v >> 0u32) & 1 == v % 2) by (bit_vector);
    }
}

/// The bits of a byte put in front come first.
pub proof fn lemma_bits_of_cons(b: u8, rest: Seq<u8>)
    ensures
        bits_of(seq![b] + rest) == low_bits(b as u32, 8) + bits_of(rest),
{
    let all = seq![b] + rest;
    assert forall|i: int| 0 <= i < bits_of(all).len() implies bits_of(all)[i] == (low_bits(
        b as u32,
        8,
    ) + bits_of(rest))[i] by {
        if i < 8 {
            assert(i / 8 == 0);
        } else {
            assert(i / 8 == (i - 8) / 8 + 1);
            assert(i % 8 == (i - 8) % 8);
            assert(all[i / 8] == rest[(i - 8) / 8]);
        }
    }
    assert(bits_of(all) =~= low_bits(b as u32, 8) + bits_of(rest));
}

/// The bits of a byte put at the end come last.
pub proof fn lemma_bits_of_push(bytes: Seq<u8>, b: u8)
    ensures
        bits_of(bytes.push(b)) == bits_of(bytes) + low_bits(b as u32, 8),
{
    let all = bytes.push(b);
    assert forall|i: int| 0 <= i < bits_of(all).len() implies bits_of(all)[i] == (bits_of(bytes)
        + low_bits(b as u32, 8))[i] by {
        if i < 8 * bytes.len() {
            assert(i / 8 < bytes.len());
        } else {
            assert(i / 8 == bytes.len());
            assert(i % 8 == i - 8 * bytes.len());
        }
    }
    assert(bits_of(all) =~= bits_of(bytes) + low_bits(b as u32, 8));
}

/// The bits of a byte spell the byte, the first of them being worth 128.
pub proof fn law_byte_bits(bytes: Seq<u8>, i: int)
    requires
        0 <= i < bytes.len(),
    ensures
        bits_of(bytes).len() == 8 * bytes.len(),
        value_at(bits_of(bytes), 8 * i, 8) == bytes[i],
        bits_of(bytes)[8 * i] <==> bytes[i] >= 128,
{
    let bs = bits_of(bytes);
    let b = bytes[i] as u32;
    assert forall|k: int| 0 <= k < 8 implies #[trigger] bs[8 * i + k] == nth_bit(b, 7 - k) by {
        assert((8 * i + k) / 8 == i);
        assert((8 * i + k) % 8 == k);
    }
    power2::lemma2_to64();
    lemma_value_of_low_bits(bs, 8 * i, b, 8);
    assert(bs[8 * i + 0] == nth_bit(b, 7));
    assert((b >> 7u32) & 1 == 1 <==> b >= 128) by (bit_vector)
        requires
            b < 256,
    ;
}

/// A number is spelled from its most significant bit on: more bits behind it shift it up.
pub proof fn law_value_concat(bits: Seq<bool>, p: int, n: int, m: int)
    requires
        0 <= n,
        0 <= m,
    ensures
        value_at(bits, p, n + m) == value_at(bits, p, n) * power2::pow2(m as nat) + value_at(
            bits,
            p + n,
            m,
        ),
    decreases m,
{
    power2::lemma2_to64();
    if m > 0 {
        law_value_concat(bits, p, n, m - 1);
        power2::lemma_pow2_unfold(m as nat);
        let a = value_at(bits, p, n);
        let h = power2::pow2((m - 1) as nat) as int;
        assert(2 * (a * h) == a * (2 * h)) by (nonlinear_arith);
        assert(power2::pow2(m as nat) == 2 * h);
        assert(value_at(bits, p, n + m) == 2 * value_at(bits, p, n + (m - 1)) + bit_value(
            bits[p + n + m - 1],
        ));
    } else {
        let a = value_at(bits, p, n);
        assert(power2::pow2(m as nat) == 1);
        assert(a * 1 == a);
    }
}

} // verus!
