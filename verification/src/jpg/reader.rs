//! Reading single bits out of entropy-coded data.
use vstd::prelude::*;

use crate::jpg::bits;

verus! {

/// What one read of a data byte at `pos` gives: the byte, the position after it, and whether a
/// restart marker was skipped on the way. A zero after 0xFF is stuffing; a marker other than a
/// restart ends the data, and so does the end of the input.
pub open spec fn next_byte_at(data: Seq<u8>, pos: int) -> (Option<u8>, int, bool)
    decreases data.len() - pos,
{
    if pos >= data.len() {
        (None, pos, false)
    } else if data[pos] != 0xFF {
        (Some(data[pos]), pos + 1, false)
    } else if pos + 1 >= data.len() {
        (None, pos + 1, false)
    } else if data[pos + 1] == 0x00 {
        (Some(0xFF), pos + 2, false)
    } else if 0xD0 <= data[pos + 1] <= 0xD7 {
        let (byte, end, _) = next_byte_at(data, pos + 2);
        (byte, end, true)
    } else {
        (None, pos + 1, false)
    }
}

/// A read moves forward and stays inside the data.
pub proof fn lemma_next_byte_moves(data: Seq<u8>, pos: int)
    requires
        0 <= pos <= data.len(),
    ensures
        pos <= next_byte_at(data, pos).1 <= data.len(),
        next_byte_at(data, pos).0 is Some ==> pos < next_byte_at(data, pos).1,
    decreases data.len() - pos,
{
    if pos + 1 < data.len() {
        lemma_next_byte_moves(data, pos + 2);
    }
}

/// The data bytes from `pos` on, with stuffing and restart markers taken out.
pub open spec fn entropy_bytes(data: Seq<u8>, pos: int) -> Seq<u8>
    decreases data.len() - pos,
{
    let (byte, end, _) = next_byte_at(data, pos);
    if byte is Some && pos < end <= data.len() {
        seq![byte->0] + entropy_bytes(data, end)
    } else {
        Seq::empty()
    }
}

/// The position at which reading from `pos` comes to rest when no data byte is left.
pub open spec fn stop_pos(data: Seq<u8>, pos: int) -> int
    decreases data.len() - pos,
{
    let (byte, end, _) = next_byte_at(data, pos);
    if byte is Some && pos < end <= data.len() {
        stop_pos(data, end)
    } else {
        end
    }
}

/// Hands out entropy-coded data bit by bit, most significant bit first.
pub struct BitReader<'a> {
    data: &'a [u8],
    pos: usize,
    buf: u32,
    nbits: u8,
}

impl<'a> BitReader<'a> {
    /// The input, stuffing and markers included.
    pub closed spec fn data(&self) -> Seq<u8> {
        self.data@
    }

    /// How much of the input has been taken in.
    pub closed spec fn pos(&self) -> int {
        self.pos as int
    }

    /// Bits of the byte taken in last that have not been handed out yet.
    pub closed spec fn pending(&self) -> Seq<bool> {
        bits::low_bits(self.buf, self.nbits as nat)
    }

    /// Holds of every reader.
    pub closed spec fn wf(&self) -> bool {
        self.pos <= self.data@.len() && self.nbits <= 8
    }

    /// The bits still to come.
    pub open spec fn view(&self) -> Seq<bool> {
        self.pending() + bits::bits_of(entropy_bytes(self.data(), self.pos()))
    }

    /// Where the reader comes to rest once its bits have run out.
    pub open spec fn stop(&self) -> int {
        stop_pos(self.data(), self.pos())
    }

    /// The reader has handed out `n` bits since it was `before`.
    pub open spec fn advanced(&self, before: &Self, n: int) -> bool {
        &&& self.wf()
        &&& self.data() == before.data()
        &&& self.stop() == before.stop()
        &&& 0 <= n <= before@.len()
        &&& self@ == before@.skip(n)
    }

    /// The reader has handed out all it had since it was `before`, and was asked for more.
    pub open spec fn exhausted(&self, before: &Self) -> bool {
        &&& self.wf()
        &&& self.data() == before.data()
        &&& self.pos() == before.stop()
        &&& self.pending() == Seq::<bool>::empty()
    }

    /// A reader at the start of `data`.
    pub fn new(data: &'a [u8]) -> (r: Self)
        ensures
            r.wf(),
            r.data() == data@,
            r.pos() == 0,
            r.pending() == Seq::<bool>::empty(),
            r@ == bits::bits_of(entropy_bytes(data@, 0)),
    {
        let r = BitReader { data, pos: 0, buf: 0, nbits: 0 };
        assert(r.pending() =~= Seq::<bool>::empty());
        assert(r@ =~= bits::bits_of(entropy_bytes(data@, 0)));
        r
    }

    /// The next data byte, or `None` where the data ends. Stuffing is dropped; a restart marker
    /// is skipped and drops the bits that were pending.
    pub fn next_byte(&mut self) -> (b: Option<u8>)
        requires
            old(self).wf(),
        ensures
            final(self).wf(),
            final(self).data() == old(self).data(),
            b == next_byte_at(old(self).data(), old(self).pos()).0,
            final(self).pos() == next_byte_at(old(self).data(), old(self).pos()).1,
            final(self).pending() == if next_byte_at(old(self).data(), old(self).pos()).2 {
                Seq::<bool>::empty()
            } else {
                old(self).pending()
            },
        decreases old(self).data().len() - old(self).pos(),
    {
        if self.pos >= self.data.len() {
            return None;
        }
        let b = self.data[self.pos];
        self.pos += 1;
        if b == 0xFF {
            if self.pos < self.data.len() {
                let m = self.data[self.pos];
                if m == 0x00 {
                    self.pos += 1;
                    return Some(0xFF);
                }
                if 0xD0 <= m && m <= 0xD7 {
                    self.pos += 1;
                    self.buf = 0;
                    self.nbits = 0;
                    assert(self.pending() =~= Seq::<bool>::empty());
                    return self.next_byte();
                }
                return None;
            }
            return None;
        }
        Some(b)
    }

    /// The next bit, as 0 or 1, or `None` where the data ends.
    pub fn bit(&mut self) -> (b: Option<u8>)
        requires
            old(self).wf(),
        ensures
            match b {
                Some(v) => old(self)@.len() > 0 && v == bits::bit_value(old(self)@[0])
                    && final(self).advanced(old(self), 1),
                None => old(self)@.len() == 0 && final(self).exhausted(old(self)),
            },
    {
        if self.nbits == 0 {
            assert(self.pending() =~= Seq::<bool>::empty());
            proof {
                lemma_next_byte_moves(self.data(), self.pos());
            }
            match self.next_byte() {
                None => {
                    assert(old(self)@ =~= Seq::<bool>::empty());
                    return None;
                },
                Some(b) => {
                    self.buf = b as u32;
                    self.nbits = 8;
                    proof {
                        bits::lemma_bits_of_cons(b, entropy_bytes(self.data(), self.pos()));
                        assert(old(self)@ =~= self@);
                    }
                },
            }
        }
        let ghost before = *self;
        self.nbits -= 1;
        let buf = self.buf;
        let n = self.nbits;
        assert((buf >> n) & 1 < 2) by (bit_vector);
        assert(before@[0] == bits::nth_bit(buf, n as int));
        assert((buf >> n) & 1 == (buf >> (n as u32)) & 1);
        assert(self@ =~= before@.skip(1)) by {
            assert(self.pending() =~= before.pending().skip(1));
        }
        Some(((buf >> n) & 1) as u8)
    }

    /// The next `n` bits as a number, of which the 16 low bits are kept, or `None` where the data
    /// holds fewer.
    pub fn bits(&mut self, n: u8) -> (v: Option<u16>)
        requires
            old(self).wf(),
        ensures
            match v {
                Some(v) => n <= old(self)@.len() && v == bits::value_at(old(self)@, 0, n as int)
                    % 0x10000 && final(self).advanced(old(self), n as int),
                None => old(self)@.len() < n && final(self).exhausted(old(self)),
            },
    {
        let mut v: u16 = 0;
        let mut i: u8 = 0;
        assert(self@ =~= old(self)@.skip(0));
        while i < n
            invariant
                i <= n,
                old(self).wf(),
                self.advanced(old(self), i as int),
                v == bits::value_at(old(self)@, 0, i as int) % 0x10000,
            decreases n - i,
        {
            let ghost before = *self;
            match self.bit() {
                None => {
                    return None;
                },
                Some(b) => {
                    let b16 = b as u16;
                    assert(((v << 1) | b16) == (2 * v + b16) % 0x10000) by (bit_vector)
                        requires
                            b16 < 2,
                    ;
                    v = (v << 1) | b16;
                    assert(old(self)@.skip(i as int).skip(1) =~= old(self)@.skip(i + 1));
                    assert(before@[0] == old(self)@[i as int]);
                },
            }
            i += 1;
        }
        Some(v)
    }
}

/// Reading a byte behind other data is reading it at the front.
proof fn lemma_next_byte_behind(a: Seq<u8>, b: Seq<u8>, k: int)
    requires
        0 <= k <= b.len(),
    ensures
        next_byte_at(a + b, a.len() + k) == ({
            let (byte, end, restart) = next_byte_at(b, k);
            (byte, a.len() + end, restart)
        }),
    decreases b.len() - k,
{
    if k + 1 < b.len() {
        assert((a + b)[a.len() + k] == b[k]);
        assert((a + b)[a.len() + k + 1] == b[k + 1]);
        lemma_next_byte_behind(a, b, k + 2);
    } else if k < b.len() {
        assert((a + b)[a.len() + k] == b[k]);
    }
}

/// The data bytes behind other data are those that there are at the front.
proof fn lemma_entropy_behind(a: Seq<u8>, b: Seq<u8>, k: int)
    requires
        0 <= k <= b.len(),
    ensures
        entropy_bytes(a + b, a.len() + k) == entropy_bytes(b, k),
    decreases b.len() - k,
{
    lemma_next_byte_behind(a, b, k);
    lemma_next_byte_moves(b, k);
    let (byte, end, _) = next_byte_at(b, k);
    if byte is Some {
        lemma_entropy_behind(a, b, end);
    }
}

/// What the bytes at the front of coded data stand for: a byte other than 0xFF for itself, 0xFF with
/// a zero behind it for 0xFF, and 0xFF with the number of a restart marker for nothing. Any other
/// byte behind 0xFF, or none, ends the data.
pub proof fn law_coded_data(x: u8, y: u8, rest: Seq<u8>)
    ensures
        entropy_bytes(Seq::empty(), 0) == Seq::<u8>::empty(),
        x != 0xFF ==> entropy_bytes(seq![x] + rest, 0) == seq![x] + entropy_bytes(rest, 0),
        entropy_bytes(seq![0xFFu8], 0) == Seq::<u8>::empty(),
        entropy_bytes(seq![0xFFu8, y] + rest, 0) == if y == 0x00 {
            seq![0xFFu8] + entropy_bytes(rest, 0)
        } else if 0xD0 <= y <= 0xD7 {
            entropy_bytes(rest, 0)
        } else {
            Seq::empty()
        },
{
    let one = seq![x] + rest;
    let two = seq![0xFFu8, y] + rest;
    if x != 0xFF {
        assert(one[0] == x);
        assert(next_byte_at(one, 0) == (Some(x), 1int, false));
        lemma_entropy_behind(seq![x], rest, 0);
    }
    assert(two[0] == 0xFF && two[1] == y);
    lemma_entropy_behind(seq![0xFFu8, y], rest, 0);
    if y == 0x00 {
        assert(next_byte_at(two, 0) == (Some(0xFFu8), 2int, false));
    } else if 0xD0 <= y <= 0xD7 {
        lemma_next_byte_behind(seq![0xFFu8, y], rest, 0);
        lemma_next_byte_moves(rest, 0);
        let (byte, end, _) = next_byte_at(rest, 0);
        if byte is Some {
            lemma_entropy_behind(seq![0xFFu8, y], rest, end);
        }
    }
}

} // verus!
