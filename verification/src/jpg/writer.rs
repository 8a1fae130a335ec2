//! Writing entropy-coded data bit by bit.
use vstd::arithmetic::power2;
use vstd::prelude::*;

use crate::jpg::amplitude;
use crate::jpg::bits;
use crate::jpg::reader;

verus! {

/// A data byte as it is written: 0xFF is followed by a zero, so that it is no marker.
pub open spec fn stuffed(b: u8) -> Seq<u8> {
    if b == 0xFF {
        seq![0xFF, 0x00]
    } else {
        seq![b]
    }
}

/// Data bytes as they are written.
pub open spec fn stuff(bytes: Seq<u8>) -> Seq<u8>
    decreases bytes.len(),
{
    if bytes.len() == 0 {
        Seq::empty()
    } else {
        stuff(bytes.drop_last()) + stuffed(bytes.last())
    }
}

/// Bits up to the next full byte, filled with ones.
pub open spec fn padded(bits: Seq<bool>) -> Seq<bool> {
    bits + Seq::new(((8 - bits.len() as int % 8) % 8) as nat, |i: int| true)
}

/// The bytes that full groups of eight bits make.
pub open spec fn pack(bits: Seq<bool>) -> Seq<u8> {
    Seq::new(bits.len() / 8, |i: int| bits::value_at(bits, 8 * i, 8) as u8)
}

/// A sequence of bits as entropy-coded data.
pub open spec fn entropy_coded(bits: Seq<bool>) -> Seq<u8> {
    stuff(pack(padded(bits)))
}

/// Full bytes at the top of the `nbits` low bits of `acc` go out; what is left stays.
pub open spec fn flushed(out: Seq<u8>, acc: u32, nbits: int) -> (Seq<u8>, u32, int)
    decreases nbits,
{
    if nbits < 8 {
        (out, acc, nbits)
    } else {
        let n = (nbits - 8) as u32;
        flushed(
            out + stuffed((acc >> n) as u8),
            acc & ((1u32 << n) - 1) as u32,
            nbits - 8,
        )
    }
}

proof fn lemma_next_byte_shift(a: Seq<u8>, t: Seq<u8>, p: int)
    requires
        0 <= p,
    ensures
        reader::next_byte_at(a + t, a.len() + p) == (
            reader::next_byte_at(t, p).0,
            a.len() + reader::next_byte_at(t, p).1,
            reader::next_byte_at(t, p).2,
        ),
    decreases t.len() - p,
{
    let all = a + t;
    if p < t.len() {
        assert(all[a.len() + p] == t[p]);
        if p + 1 < t.len() {
            assert(all[a.len() + p + 1] == t[p + 1]);
            lemma_next_byte_shift(a, t, p + 2);
        }
    }
}

proof fn lemma_entropy_shift(a: Seq<u8>, t: Seq<u8>, p: int)
    requires
        0 <= p,
    ensures
        reader::entropy_bytes(a + t, a.len() + p) == reader::entropy_bytes(t, p),
    decreases t.len() - p,
{
    lemma_next_byte_shift(a, t, p);
    let (byte, end, _) = reader::next_byte_at(t, p);
    if byte is Some && p < end <= t.len() {
        lemma_entropy_shift(a, t, end);
    }
}

/// Reading stuffed bytes gives the bytes, and goes on with what follows them.
pub proof fn lemma_unstuff(bytes: Seq<u8>, t: Seq<u8>)
    ensures
        reader::entropy_bytes(stuff(bytes) + t, 0) == bytes + reader::entropy_bytes(t, 0),
    decreases bytes.len(),
{
    if bytes.len() == 0 {
        assert(stuff(bytes) + t =~= t);
        assert(bytes + reader::entropy_bytes(t, 0) =~= reader::entropy_bytes(t, 0));
    } else {
        let b = bytes.last();
        let front = bytes.drop_last();
        let rest = stuffed(b) + t;
        lemma_unstuff(front, rest);
        assert(stuff(bytes) + t =~= stuff(front) + rest);
        lemma_entropy_shift(stuffed(b), t, 0);
        assert(rest[0] == b);
        if b == 0xFF {
            assert(rest[1] == 0x00);
        }
        assert(reader::next_byte_at(rest, 0).0 == Some(b));
        assert(reader::next_byte_at(rest, 0).1 == stuffed(b).len());
        assert(reader::entropy_bytes(rest, 0) == seq![b] + reader::entropy_bytes(t, 0));
        assert(front + (seq![b] + reader::entropy_bytes(t, 0)) =~= bytes + reader::entropy_bytes(
            t,
            0,
        ));
    }
}

/// Packing the bits of bytes gives the bytes.
pub proof fn lemma_pack(bytes: Seq<u8>)
    ensures
        pack(bits::bits_of(bytes)) == bytes,
{
    let bs = bits::bits_of(bytes);
    assert forall|i: int| 0 <= i < bytes.len() implies pack(bs)[i] == bytes[i] by {
        power2::lemma2_to64();
        assert forall|j: int| 0 <= j < 8 implies #[trigger] bs[8 * i + j] == bits::nth_bit(
            bytes[i] as u32,
            8 - 1 - j,
        ) by {
            assert((8 * i + j) / 8 == i);
            assert((8 * i + j) % 8 == j);
        }
        bits::lemma_value_of_low_bits(bs, 8 * i, bytes[i] as u32, 8);
    }
    assert(pack(bs) =~= bytes);
}

/// Entropy-coded data holds the bits that it was made of, filled up with ones.
pub proof fn law_entropy_round_trip(data: Seq<bool>, t: Seq<u8>)
    requires
        reader::next_byte_at(t, 0).0 is None,
    ensures
        bits::bits_of(reader::entropy_bytes(entropy_coded(data) + t, 0)) == padded(data),
{
    let full = padded(data);
    assert(full.len() % 8 == 0);
    let bytes = pack(full);
    lemma_unstuff(bytes, t);
    assert(bytes + reader::entropy_bytes(t, 0) =~= bytes);
    assert forall|i: int| 0 <= i < full.len() implies bits::bits_of(bytes)[i] == full[i] by {
        let q = i / 8;
        let b = bytes[q];
        bits::lemma_value_range(full, 8 * q, 8);
        power2::lemma2_to64();
        lemma_bits_of_value(full, 8 * q, 8, i % 8);
        assert(8 * q + i % 8 == i);
    }
    assert(bits::bits_of(bytes) =~= full);
}

/// The digits of the number that bits spell are those bits.
proof fn lemma_bits_of_value(bs: Seq<bool>, p: int, n: int, j: int)
    requires
        0 <= j < n <= 32,
    ensures
        bits::nth_bit(bits::value_at(bs, p, n) as u32, n - 1 - j) == bs[p + j],
    decreases n,
{
    bits::lemma_value_range(bs, p, n);
    bits::lemma_value_range(bs, p, n - 1);
    power2::lemma2_to64();
    if n < 32 {
        power2::lemma_pow2_strictly_increases(n as nat, 32);
    }
    power2::lemma_pow2_strictly_increases((n - 1) as nat, 32);
    let v = bits::value_at(bs, p, n) as u32;
    let w = bits::value_at(bs, p, n - 1) as u32;
    let last = bits::bit_value(bs[p + n - 1]) as u32;
    assert(v == 2 * w + last);
    if j == n - 1 {
        assert((v >> 0u32) & 1 == last) by (bit_vector)
            requires
                v == 2 * w + last,
                last < 2,
        ;
    } else {
        lemma_bits_of_value(bs, p, n - 1, j);
        let a = (n - 1 - j) as u32;
        let b = (n - 2 - j) as u32;
        assert((v >> a) & 1 == (w >> b) & 1) by (bit_vector)
            requires
                v == 2 * w + last,
                last < 2,
                a == b + 1,
                a < 32,
        ;
    }
}

/// A code that fits in its length goes behind the waiting bits without touching them.
proof fn lemma_joined(acc: u32, nbits: nat, code: u16, len: u8)
    requires
        nbits < 8,
        len <= 16,
        code < power2::pow2(len as nat),
    ensures
        bits::low_bits((acc << (len as u32)) | (code as u32), nbits + len as nat)
            == bits::low_bits(acc, nbits) + bits::low_bits(code as u32, len as nat),
{
    let l = len as u32;
    let c = code as u32;
    let joined = (acc << l) | c;
    power2::lemma2_to64();
    power2::lemma_pow2_pos(len as nat);
    if len < 16 {
        power2::lemma_pow2_strictly_increases(len as nat, 16);
    }
    vstd::bits::lemma_u32_shl_is_mul(1, l);
    assert forall|i: int| 0 <= i < nbits + len implies bits::low_bits(
        joined,
        nbits + len as nat,
    )[i] == (bits::low_bits(acc, nbits) + bits::low_bits(c, len as nat))[i] by {
        let a = (nbits + len - 1 - i) as u32;
        if i < nbits {
            let b = (nbits - 1 - i) as u32;
            assert((joined >> a) & 1 == (acc >> b) & 1) by (bit_vector)
                requires
                    joined == (acc << l) | c,
                    c < (1u32 << l),
                    l <= 16,
                    a == b + l,
                    a < 32,
            ;
        } else {
            assert((joined >> a) & 1 == (c >> a) & 1) by (bit_vector)
                requires
                    joined == (acc << l) | c,
                    a < l,
                    l <= 16,
            ;
        }
    }
    assert(bits::low_bits(joined, nbits + len as nat) =~= bits::low_bits(acc, nbits)
        + bits::low_bits(c, len as nat));
}

/// The byte at the top and the bits below it.
proof fn lemma_split(acc: u32, n: u32, b: u8)
    requires
        n <= 24,
        b == (acc >> n) as u8,
    ensures
        bits::low_bits(acc, (n + 8) as nat) == bits::low_bits(b as u32, 8) + bits::low_bits(
            acc & ((1u32 << n) - 1) as u32,
            n as nat,
        ),
{
    let b32 = b as u32;
    assert(b32 == (acc >> n) & 0xFF) by (bit_vector)
        requires
            b32 == (acc >> n) as u8,
    ;
    assert((1u32 << n) >= 1) by (bit_vector)
        requires
            n <= 24,
    ;
    let mask = ((1u32 << n) - 1) as u32;
    let rest = acc & mask;
    assert forall|i: int| 0 <= i < n + 8 implies bits::low_bits(acc, (n + 8) as nat)[i] == (
    bits::low_bits(b32, 8) + bits::low_bits(rest, n as nat))[i] by {
        let a = (n + 7 - i) as u32;
        if i < 8 {
            let c = (7 - i) as u32;
            assert((b32 >> c) & 1 == (acc >> a) & 1) by (bit_vector)
                requires
                    b32 == (acc >> n) & 0xFF,
                    c < 8,
                    a == c + n,
                    n <= 24,
            ;
        } else {
            assert((rest >> a) & 1 == (acc >> a) & 1) by (bit_vector)
                requires
                    rest == acc & mask,
                    mask == (1u32 << n) - 1,
                    a < n,
                    n <= 24,
            ;
        }
    }
    assert(bits::low_bits(acc, (n + 8) as nat) =~= bits::low_bits(b32, 8) + bits::low_bits(
        rest,
        n as nat,
    ));
}

/// The last byte holds the waiting bits and ones.
proof fn lemma_last_byte(acc: u32, nbits: u8, b: u8)
    requires
        0 < nbits < 8,
        b == ((acc << ((8 - nbits) as u32)) as u8) | ((1u8 << ((8 - nbits) as u8)) - 1) as u8,
    ensures
        bits::low_bits(b as u32, 8) == bits::low_bits(acc, nbits as nat) + Seq::new(
            (8 - nbits) as nat,
            |i: int| true,
        ),
{
    let k = (8 - nbits) as u8;
    let k32 = k as u32;
    let b32 = b as u32;
    assert((1u8 << k) >= 1) by (bit_vector)
        requires
            k < 8,
    ;
    assert(b32 == ((acc << k32) & 0xFF) | ((1u32 << k32) - 1) as u32) by (bit_vector)
        requires
            b32 == b as u32,
            b == ((acc << k32) as u8) | ((1u8 << k) - 1) as u8,
            k32 == k as u32,
            0 < k < 8,
    ;
    let ones = Seq::new((8 - nbits) as nat, |i: int| true);
    assert forall|i: int| 0 <= i < 8 implies bits::low_bits(b32, 8)[i] == (bits::low_bits(
        acc,
        nbits as nat,
    ) + ones)[i] by {
        let a = (7 - i) as u32;
        if i < nbits {
            let c = (nbits - 1 - i) as u32;
            assert((b32 >> a) & 1 == (acc >> c) & 1) by (bit_vector)
                requires
                    b32 == ((acc << k32) & 0xFF) | ((1u32 << k32) - 1) as u32,
                    a == c + k32,
                    a < 8,
                    0 < k32 < 8,
            ;
        } else {
            assert((b32 >> a) & 1 == 1) by (bit_vector)
                requires
                    b32 == ((acc << k32) & 0xFF) | ((1u32 << k32) - 1) as u32,
                    a < k32,
                    0 < k32 < 8,
            ;
        }
    }
    assert(bits::low_bits(b32, 8) =~= bits::low_bits(acc, nbits as nat) + ones);
}

/// Collects bits, most significant first, and puts out full bytes with stuffing.
pub struct BitWriter {
    out: Vec<u8>,
    acc: u32,
    nbits: u8,
}

impl BitWriter {
    /// The bytes put out so far.
    pub closed spec fn out(&self) -> Seq<u8> {
        self.out@
    }

    /// Bits that wait for a full byte, as the low bits of a number.
    pub closed spec fn acc(&self) -> u32 {
        self.acc
    }

    /// How many bits wait for a full byte.
    pub closed spec fn nbits(&self) -> int {
        self.nbits as int
    }

    /// Holds of every writer.
    pub open spec fn wf(&self) -> bool {
        0 <= self.nbits() < 8 && self.out() == stuff(reader::entropy_bytes(self.out(), 0))
    }

    /// The bits written so far.
    pub open spec fn view(&self) -> Seq<bool> {
        bits::bits_of(reader::entropy_bytes(self.out(), 0)) + bits::low_bits(
            self.acc(),
            self.nbits() as nat,
        )
    }

    /// A code was put behind the bits that were waiting, and full bytes went out. A code that fits
    /// in its length appends just its bits.
    pub open spec fn wrote(&self, before: &Self, code: u16, len: u8) -> bool {
        &&& self.wf()
        &&& (self.out(), self.acc(), self.nbits()) == flushed(
            before.out(),
            (before.acc() << (len as u32)) | (code as u32),
            before.nbits() + len,
        )
        &&& len <= 16 && code < power2::pow2(len as nat) ==> self@ == before@ + bits::low_bits(
            code as u32,
            len as nat,
        )
    }

    /// A writer that has written nothing.
    pub fn new() -> (w: Self)
        ensures
            w.wf(),
            w@ == Seq::<bool>::empty(),
            w.out() == Seq::<u8>::empty(),
            w.acc() == 0,
            w.nbits() == 0,
    {
        let w = BitWriter { out: Vec::new(), acc: 0, nbits: 0 };
        assert(w.out() =~= Seq::<u8>::empty());
        assert(w@ =~= Seq::<bool>::empty());
        w
    }

    /// Writes a code of `len` bits. Bits that `code` has beyond those fall on bits that still wait.
    pub fn bits(&mut self, code: u16, len: u8)
        requires
            old(self).wf(),
            len < 32,
        ensures
            final(self).wrote(old(self), code, len),
    {
        let ghost joined = (self.acc << (len as u32)) | (code as u32);
        let ghost total = self.nbits + len;
        proof {
            if len <= 16 && code < power2::pow2(len as nat) {
                lemma_joined(self.acc, self.nbits as nat, code, len);
            }
        }
        self.acc = (self.acc << (len as u32)) | (code as u32);
        self.nbits += len;
        let ghost start = bits::bits_of(reader::entropy_bytes(self.out@, 0)) + bits::low_bits(
            joined,
            total as nat,
        );
        while self.nbits >= 8
            invariant
                self.nbits <= total < 40,
                self.out@ == stuff(reader::entropy_bytes(self.out@, 0)),
                flushed(self.out@, self.acc, self.nbits as int) == flushed(
                    old(self).out(),
                    joined,
                    total,
                ),
                total <= 32 ==> bits::bits_of(reader::entropy_bytes(self.out@, 0))
                    + bits::low_bits(self.acc, self.nbits as nat) == start,
            decreases self.nbits,
        {
            let ghost before = *self;
            self.nbits -= 8;
            let n: u32 = self.nbits as u32;
            let acc: u32 = self.acc;
            let b: u8 = #[verifier::truncate] ((acc >> n) as u8);
            self.out.push(b);
            if b == 0xFF {
                self.out.push(0x00);
            }
            assert((1u32 << n) >= 1) by (bit_vector)
                requires
                    n < 32,
            ;
            self.acc = acc & ((1u32 << n) - 1);
            proof {
                let bytes = reader::entropy_bytes(before.out@, 0);
                assert(bytes.push(b).drop_last() =~= bytes);
                assert(self.out@ =~= before.out@ + stuffed(b));
                assert(self.out@ == stuff(bytes.push(b)));
                lemma_unstuff(bytes.push(b), Seq::empty());
                assert(stuff(bytes.push(b)) + Seq::<u8>::empty() =~= self.out@);
                assert(reader::entropy_bytes(Seq::<u8>::empty(), 0) =~= Seq::<u8>::empty());
                assert(reader::entropy_bytes(self.out@, 0) =~= bytes.push(b));
                if total <= 32 {
                    bits::lemma_bits_of_push(bytes, b);
                    lemma_split(acc, n, b);
                    assert(bits::bits_of(bytes) + (bits::low_bits(b as u32, 8) + bits::low_bits(
                        self.acc,
                        n as nat,
                    )) =~= bits::bits_of(bytes) + bits::low_bits(b as u32, 8) + bits::low_bits(
                        self.acc,
                        n as nat,
                    ));
                }
            }
        }
        proof {
            if len <= 16 && code < power2::pow2(len as nat) {
                assert(start =~= old(self)@ + bits::low_bits(code as u32, len as nat));
            }
        }
    }

    /// Writes the `size` bits that stand for the coefficient `v`.
    pub fn amplitude(&mut self, v: i32, size: u8)
        requires
            old(self).wf(),
            size <= 30 || (v >= 0 && size == 31),
        ensures
            size == 0 ==> *final(self) == *old(self),
            size > 0 ==> final(self).wrote(
                old(self),
                amplitude::amplitude_code(v as int, size as int) as u16,
                size,
            ),
    {
        if size == 0 {
            return;
        }
        let code: u16 = if v >= 0 {
            #[verifier::truncate] (v as u16)
        } else {
            proof {
                power2::lemma2_to64();
                power2::lemma_pow2_pos(size as nat);
                if size < 30 {
                    power2::lemma_pow2_strictly_increases(size as nat, 30);
                }
                vstd::bits::lemma_u32_shl_is_mul(1, size as u32);
            }
            let top: i32 = (1u32 << (size as u32)) as i32;
            #[verifier::truncate] ((v + top - 1) as u16)
        };
        self.bits(code, size);
    }

    /// The data written, the last byte filled up with ones.
    pub fn finish(self) -> (r: Vec<u8>)
        requires
            self.wf(),
        ensures
            r@ == entropy_coded(self@),
    {
        let ghost bytes = reader::entropy_bytes(self.out@, 0);
        let BitWriter { mut out, acc, nbits } = self;
        if nbits > 0 {
            let k: u8 = 8 - nbits;
            let k32: u32 = k as u32;
            assert((1u8 << k) >= 1) by (bit_vector)
                requires
                    k < 8,
            ;
            let b: u8 = (#[verifier::truncate] ((acc << k32) as u8)) | ((1u8 << k) - 1);
            out.push(b);
            if b == 0xFF {
                out.push(0x00);
            }
            proof {
                assert(bytes.push(b).drop_last() =~= bytes);
                assert(out@ =~= stuff(bytes.push(b)));
                bits::lemma_bits_of_push(bytes, b);
                lemma_last_byte(acc, nbits, b);
                assert(padded(self@) =~= bits::bits_of(bytes.push(b)));
                lemma_pack(bytes.push(b));
            }
        } else {
            proof {
                assert(padded(self@) =~= bits::bits_of(bytes));
                lemma_pack(bytes);
            }
        }
        out
    }
}

} // verus!
