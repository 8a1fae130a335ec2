//! Canonical Huffman codes, for reading and for writing.
use vstd::arithmetic::power2;
use vstd::prelude::*;

use crate::jpg::bits;
use crate::jpg::error::Error;
use crate::jpg::reader::BitReader;

verus! {

/// The first code of length `l + 1`: the codes of each length follow those of the length before,
/// with a zero bit appended. Codes have 16 bits.
pub open spec fn first_code(counts: Seq<u8>, l: int) -> int
    decreases l,
{
    if l <= 0 {
        0
    } else {
        2 * (first_code(counts, l - 1) + counts[l - 1]) % 0x10000
    }
}

/// The codes of every length, and the one that would follow them, fit in 16 bits.
pub open spec fn codes_defined(counts: Seq<u8>) -> bool {
    forall|l: int| 0 <= l < 16 ==> #[trigger] first_code(counts, l) + counts[l] <= 0xFFFF
}

/// How many symbols have codes of at most `l` bits.
pub open spec fn symbols_before(counts: Seq<u8>, l: int) -> int
    decreases l,
{
    if l <= 0 {
        0
    } else {
        symbols_before(counts, l - 1) + counts[l - 1]
    }
}

/// The first `n` codes of length `l + 1`, as code, length and symbol.
pub open spec fn level_codes(counts: Seq<u8>, symbols: Seq<u8>, l: int, n: int) -> Seq<
    (u16, u8, u8),
> {
    Seq::new(
        n as nat,
        |j: int|
            (
                (first_code(counts, l) + j) as u16,
                (l + 1) as u8,
                symbols[symbols_before(counts, l) + j],
            ),
    )
}

/// How many of the first `n` codes of length `l + 1` have a symbol.
pub open spec fn level_len(counts: Seq<u8>, symbols: Seq<u8>, l: int, n: int) -> int {
    if symbols.len() <= symbols_before(counts, l) {
        0
    } else if symbols.len() <= symbols_before(counts, l) + n {
        symbols.len() - symbols_before(counts, l)
    } else {
        n
    }
}

/// All codes of at most `l` bits, in order, for the symbols that there are.
pub open spec fn codes_upto(counts: Seq<u8>, symbols: Seq<u8>, l: int) -> Seq<(u16, u8, u8)>
    decreases l,
{
    if l <= 0 {
        Seq::empty()
    } else {
        codes_upto(counts, symbols, l - 1) + level_codes(
            counts,
            symbols,
            l - 1,
            level_len(counts, symbols, l - 1, counts[l - 1] as int),
        )
    }
}

/// The canonical code: `counts[l]` symbols have codes of length `l + 1`.
pub open spec fn canonical_codes(counts: Seq<u8>, symbols: Seq<u8>) -> Seq<(u16, u8, u8)> {
    codes_upto(counts, symbols, 16)
}

/// The symbol of the first entry from `from` on with this code and length.
pub open spec fn find_code(codes: Seq<(u16, u8, u8)>, code: int, len: int, from: int) -> Option<u8>
    decreases codes.len() - from,
{
    if from >= codes.len() {
        None
    } else if codes[from].0 == code && codes[from].1 == len {
        Some(codes[from].2)
    } else {
        find_code(codes, code, len, from + 1)
    }
}

/// Reading a symbol at `p` when no code shorter than `len` bits has matched: the symbol and the
/// position after it.
pub open spec fn symbol_from(codes: Seq<(u16, u8, u8)>, bits: Seq<bool>, p: int, len: int) -> Result<
    (u8, int),
    Error,
>
    decreases 17 - len,
{
    if len > 16 {
        Err(Error::BadHuffman)
    } else if p + len > bits.len() {
        Err(Error::Truncated)
    } else {
        match find_code(codes, bits::value_at(bits, p, len), len, 0) {
            Some(s) => Ok((s, p + len)),
            None => symbol_from(codes, bits, p, len + 1),
        }
    }
}

/// Reading a symbol at `p`: the shortest code that matches decides.
pub open spec fn symbol_at(codes: Seq<(u16, u8, u8)>, bits: Seq<bool>, p: int) -> Result<
    (u8, int),
    Error,
> {
    symbol_from(codes, bits, p, 1)
}

/// The code and length under which a symbol is written: those of its last entry, or no bits.
pub open spec fn code_of(codes: Seq<(u16, u8, u8)>, s: u8) -> (u16, u8)
    decreases codes.len(),
{
    if codes.len() == 0 {
        (0, 0)
    } else if codes.last().2 == s {
        (codes.last().0, codes.last().1)
    } else {
        code_of(codes.drop_last(), s)
    }
}

/// Moving a read along inside longer data does not change it.
pub proof fn lemma_symbol_shift(
    codes: Seq<(u16, u8, u8)>,
    a: Seq<bool>,
    n: int,
    p: int,
    len: int,
)
    requires
        0 <= n <= a.len(),
        0 <= p,
        1 <= len,
    ensures
        symbol_from(codes, a.skip(n), p, len) == match symbol_from(codes, a, n + p, len) {
            Ok((s, end)) => Ok((s, end - n)),
            Err(e) => Err(e),
        },
    decreases 17 - len,
{
    if len <= 16 && p + len <= a.skip(n).len() {
        bits::lemma_value_same(a.skip(n), p, a, n + p, len);
        lemma_symbol_shift(codes, a, n, p, len + 1);
    }
}

/// Whether the canonical code for these counts exists.
pub fn codes_fit(counts: &[u8; 16]) -> (r: bool)
    ensures
        r == codes_defined(counts@),
{
    let mut code: u16 = 0;
    let mut i: usize = 0;
    while i < 16
        invariant
            i <= 16,
            code == first_code(counts@, i as int),
            forall|l: int|
                0 <= l < i ==> #[trigger] first_code(counts@, l) + counts@[l] <= 0xFFFF,
        decreases 16 - i,
    {
        let n: u16 = counts[i] as u16;
        if code > 0xFFFF - n {
            assert(first_code(counts@, i as int) + counts@[i as int] > 0xFFFF);
            return false;
        }
        let next: u16 = code + n;
        assert((next << 1) == (2 * next) % 0x10000) by (bit_vector);
        code = next << 1;
        i += 1;
    }
    true
}

/// A code for reading.
pub struct HTable {
    codes: Vec<(u16, u8, u8)>,
}

impl HTable {
    /// Code, length and symbol of each entry.
    pub closed spec fn view(&self) -> Seq<(u16, u8, u8)> {
        self.codes@
    }

    /// The canonical code in which `counts[l]` symbols have codes of length `l + 1`.
    pub fn build(counts: [u8; 16], symbols: Vec<u8>) -> (r: Self)
        requires
            codes_defined(counts@),
        ensures
            r@ == canonical_codes(counts@, symbols@),
    {
        let mut codes: Vec<(u16, u8, u8)> = Vec::new();
        let mut code: u16 = 0;
        let mut k: usize = 0;
        let mut i: usize = 0;
        while i < 16
            invariant
                i <= 16,
                codes_defined(counts@),
                code == first_code(counts@, i as int),
                0 <= symbols_before(counts@, i as int),
                k == if symbols@.len() < symbols_before(counts@, i as int) {
                    symbols@.len() as int
                } else {
                    symbols_before(counts@, i as int)
                },
                codes@ == codes_upto(counts@, symbols@, i as int),
            decreases 16 - i,
        {
            let count: u8 = counts[i];
            let mut n: u8 = 0;
            assert(first_code(counts@, i as int) + counts@[i as int] <= 0xFFFF);
            assert(codes@ =~= codes_upto(counts@, symbols@, i as int) + level_codes(
                counts@,
                symbols@,
                i as int,
                level_len(counts@, symbols@, i as int, 0),
            ));
            while n < count
                invariant
                    i < 16,
                    n <= count,
                    count == counts@[i as int],
                    first_code(counts@, i as int) >= 0,
                    first_code(counts@, i as int) + counts@[i as int] <= 0xFFFF,
                    code == first_code(counts@, i as int) + n,
                    0 <= symbols_before(counts@, i as int),
                    k == if symbols@.len() < symbols_before(counts@, i as int) + n {
                        symbols@.len() as int
                    } else {
                        symbols_before(counts@, i as int) + n
                    },
                    codes@ == codes_upto(counts@, symbols@, i as int) + level_codes(
                        counts@,
                        symbols@,
                        i as int,
                        level_len(counts@, symbols@, i as int, n as int),
                    ),
                decreases count - n,
            {
                if k < symbols.len() {
                    codes.push((code, (i + 1) as u8, symbols[k]));
                    k += 1;
                }
                code += 1;
                n += 1;
                assert(codes@ =~= codes_upto(counts@, symbols@, i as int) + level_codes(
                    counts@,
                    symbols@,
                    i as int,
                    level_len(counts@, symbols@, i as int, n as int),
                ));
            }
            assert((code << 1) == (2 * code) % 0x10000) by (bit_vector);
            code = code << 1;
            i += 1;
        }
        HTable { codes }
    }

    /// Reads one symbol: the shortest code that matches the bits to come decides.
    pub fn decode(&self, br: &mut BitReader) -> (r: Result<u8, Error>)
        requires
            old(br).wf(),
        ensures
            match symbol_at(self@, old(br)@, 0) {
                Ok((s, n)) => r == Ok::<u8, Error>(s) && final(br).advanced(old(br), n),
                Err(e) => r == Err::<u8, Error>(e) && if e == Error::Truncated {
                    final(br).exhausted(old(br))
                } else {
                    final(br).advanced(old(br), 16)
                },
            },
    {
        let mut code: u16 = 0;
        let mut len: u8 = 0;
        assert(br@ =~= old(br)@.skip(0));
        while len < 16
            invariant
                len <= 16,
                old(br).wf(),
                br.advanced(old(br), len as int),
                code == bits::value_at(old(br)@, 0, len as int),
                symbol_at(self@, old(br)@, 0) == symbol_from(self@, old(br)@, 0, len + 1),
            decreases 16 - len,
        {
            let ghost before = *br;
            let b: u16 = match br.bit() {
                None => {
                    return Err(Error::Truncated);
                },
                Some(b) => b as u16,
            };
            proof {
                bits::lemma_value_range(old(br)@, 0, len as int);
                power2::lemma2_to64();
                if len < 15 {
                    power2::lemma_pow2_strictly_increases(len as nat, 15);
                }
                assert(((code << 1) | b) == 2 * code + b) by (bit_vector)
                    requires
                        b < 2,
                        code < 0x8000,
                ;
                assert(old(br)@.skip(len as int).skip(1) =~= old(br)@.skip(len + 1));
                assert(before@[0] == old(br)@[len as int]);
            }
            code = (code << 1) | b;
            len += 1;
            let mut i: usize = 0;
            while i < self.codes.len()
                invariant
                    i <= self.codes@.len(),
                    1 <= len <= 16,
                    br.advanced(old(br), len as int),
                    code == bits::value_at(old(br)@, 0, len as int),
                    symbol_at(self@, old(br)@, 0) == symbol_from(self@, old(br)@, 0, len as int),
                    find_code(self@, code as int, len as int, 0) == find_code(
                        self@,
                        code as int,
                        len as int,
                        i as int,
                    ),
                decreases self.codes@.len() - i,
            {
                let (c, l, s) = self.codes[i];
                if l == len && c == code {
                    return Ok(s);
                }
                i += 1;
            }
        }
        Err(Error::BadHuffman)
    }
}

/// A code for writing: for each symbol the code and the number of its bits.
pub struct EncTable {
    map: [(u16, u8); 256],
}

impl EncTable {
    /// Code and length of each symbol.
    pub closed spec fn view(&self) -> Seq<(u16, u8)> {
        self.map@
    }

    /// The canonical code in which `counts[l]` symbols have codes of length `l + 1`.
    pub fn build(counts: [u8; 16], symbols: &[u8]) -> (r: Self)
        requires
            codes_defined(counts@),
        ensures
            r@.len() == 256,
            forall|s: u8|
                #[trigger] r@[s as int] == code_of(canonical_codes(counts@, symbols@), s),
    {
        let mut map = [(0u16, 0u8); 256];
        let mut code: u16 = 0;
        let mut k: usize = 0;
        let mut i: usize = 0;
        let ghost mut codes: Seq<(u16, u8, u8)> = Seq::empty();
        while i < 16
            invariant
                i <= 16,
                codes_defined(counts@),
                code == first_code(counts@, i as int),
                0 <= symbols_before(counts@, i as int),
                k == if symbols@.len() < symbols_before(counts@, i as int) {
                    symbols@.len() as int
                } else {
                    symbols_before(counts@, i as int)
                },
                codes == codes_upto(counts@, symbols@, i as int),
                forall|s: u8| #[trigger] map@[s as int] == code_of(codes, s),
            decreases 16 - i,
        {
            let count: u8 = counts[i];
            let mut n: u8 = 0;
            assert(first_code(counts@, i as int) + counts@[i as int] <= 0xFFFF);
            assert(codes =~= codes_upto(counts@, symbols@, i as int) + level_codes(
                counts@,
                symbols@,
                i as int,
                level_len(counts@, symbols@, i as int, 0),
            ));
            while n < count
                invariant
                    i < 16,
                    n <= count,
                    count == counts@[i as int],
                    first_code(counts@, i as int) >= 0,
                    first_code(counts@, i as int) + counts@[i as int] <= 0xFFFF,
                    code == first_code(counts@, i as int) + n,
                    0 <= symbols_before(counts@, i as int),
                    k == if symbols@.len() < symbols_before(counts@, i as int) + n {
                        symbols@.len() as int
                    } else {
                        symbols_before(counts@, i as int) + n
                    },
                    codes == codes_upto(counts@, symbols@, i as int) + level_codes(
                        counts@,
                        symbols@,
                        i as int,
                        level_len(counts@, symbols@, i as int, n as int),
                    ),
                    forall|s: u8| #[trigger] map@[s as int] == code_of(codes, s),
                decreases count - n,
            {
                if k < symbols.len() {
                    let entry = (code, (i + 1) as u8);
                    let ghost before = codes;
                    map[symbols[k] as usize] = entry;
                    proof {
                        codes = codes.push((entry.0, entry.1, symbols@[k as int]));
                        assert(codes.drop_last() =~= before);
                    }
                    k += 1;
                }
                code += 1;
                n += 1;
                assert(codes =~= codes_upto(counts@, symbols@, i as int) + level_codes(
                    counts@,
                    symbols@,
                    i as int,
                    level_len(counts@, symbols@, i as int, n as int),
                ));
            }
            assert((code << 1) == (2 * code) % 0x10000) by (bit_vector);
            code = code << 1;
            i += 1;
        }
        EncTable { map }
    }

    /// The code of a symbol and the number of its bits; no bits for a symbol without a code.
    pub fn code(&self, s: u8) -> (r: (u16, u8))
        ensures
            r == self@[s as int],
    {
        self.map[s as usize]
    }
}

/// The first code of length `l + 1`, however many bits that takes.
pub open spec fn code_space(counts: Seq<u8>, l: int) -> int
    decreases l,
{
    if l <= 0 {
        0
    } else {
        2 * (code_space(counts, l - 1) + counts[l - 1])
    }
}

/// There are enough codes of every length.
pub open spec fn prefix_code(counts: Seq<u8>) -> bool {
    forall|l: int|
        0 <= l < 16 ==> #[trigger] code_space(counts, l) + counts[l] <= power2::pow2(
            (l + 1) as nat,
        )
}

/// With enough codes of every length nothing is lost to the 16-bit limit, except past a code that
/// leaves no room.
proof fn lemma_first_code_exact(counts: Seq<u8>, l: int)
    requires
        prefix_code(counts),
        0 <= l < 16,
    ensures
        code_space(counts, l) >= 0,
        code_space(counts, l) <= power2::pow2((l + 1) as nat),
        counts[l] > 0 ==> first_code(counts, l) == code_space(counts, l),
        l < 15 ==> first_code(counts, l) == code_space(counts, l),
    decreases l,
{
    power2::lemma2_to64();
    if l > 0 {
        lemma_first_code_exact(counts, l - 1);
        power2::lemma_pow2_unfold((l + 1) as nat);
        if l < 15 {
            power2::lemma_pow2_strictly_increases((l + 1) as nat, 16);
        }
        assert(code_space(counts, l - 1) + counts[l - 1] <= power2::pow2(l as nat));
        assert(code_space(counts, l) + counts[l] <= power2::pow2((l + 1) as nat));
    }
}

/// Where an entry stands follows from its code and length.
proof fn lemma_entry(counts: Seq<u8>, symbols: Seq<u8>, l: int, i: int)
    requires
        0 <= l <= 16,
        codes_defined(counts),
        0 <= i < codes_upto(counts, symbols, l).len(),
    ensures
        ({
            let e = codes_upto(counts, symbols, l)[i];
            &&& 1 <= e.1 <= l
            &&& first_code(counts, e.1 - 1) <= e.0 < first_code(counts, e.1 - 1) + counts[e.1 - 1]
            &&& i == codes_upto(counts, symbols, e.1 - 1).len() + e.0 - first_code(
                counts,
                e.1 - 1,
            )
        }),
    decreases l,
{
    let before = codes_upto(counts, symbols, l - 1);
    if i < before.len() {
        lemma_entry(counts, symbols, l - 1, i);
    } else {
        assert(first_code(counts, l - 1) + counts[l - 1] <= 0xFFFF);
        lemma_first_code_nonneg(counts, l - 1);
    }
}

proof fn lemma_first_code_nonneg(counts: Seq<u8>, l: int)
    ensures
        first_code(counts, l) >= 0,
{
}

/// Longer codes start where the shorter ones end.
proof fn lemma_code_gap(counts: Seq<u8>, l: int, m: int)
    requires
        0 <= l < m < 16,
    ensures
        code_space(counts, m) >= power2::pow2((m - l) as nat) * (code_space(counts, l)
            + counts[l]),
    decreases m,
{
    let top = code_space(counts, l) + counts[l];
    power2::lemma2_to64();
    if m - 1 > l {
        lemma_code_gap(counts, l, m - 1);
        power2::lemma_pow2_unfold((m - l) as nat);
        let half = power2::pow2((m - 1 - l) as nat);
        assert(2 * half * top == 2 * (half * top)) by (nonlinear_arith);
    }
}

/// Dropping the last bits of a number divides it.
proof fn lemma_value_prefix(bs: Seq<bool>, p: int, n: int, m: int)
    requires
        0 <= n <= m,
    ensures
        value_floor(bits::value_at(bs, p, m), (m - n) as nat) == bits::value_at(bs, p, n),
    decreases m,
{
    power2::lemma2_to64();
    if n < m {
        lemma_value_prefix(bs, p, n, m - 1);
        let k = (m - n) as nat;
        power2::lemma_pow2_unfold(k);
        power2::lemma_pow2_pos((k - 1) as nat);
        let x = bits::value_at(bs, p, m - 1);
        bits::lemma_value_range(bs, p, m - 1);
        bits::lemma_value_range(bs, p, m);
        let d = power2::pow2((k - 1) as nat) as int;
        let y = bits::value_at(bs, p, m);
        assert(y / 2 == x);
        vstd::arithmetic::div_mod::lemma_div_denominator(y, 2, d);
    } else {
        let y = bits::value_at(bs, p, m);
        assert(y / 1 == y);
    }
}

/// `v` without its `k` low bits.
spec fn value_floor(v: int, k: nat) -> int {
    v / (power2::pow2(k) as int)
}

proof fn lemma_not_found(codes: Seq<(u16, u8, u8)>, code: int, len: int, from: int)
    requires
        0 <= from,
        forall|i: int|
            from <= i < codes.len() ==> !((#[trigger] codes[i]).0 == code && codes[i].1 == len),
    ensures
        find_code(codes, code, len, from) is None,
    decreases codes.len() - from,
{
    if from < codes.len() {
        lemma_not_found(codes, code, len, from + 1);
    }
}

proof fn lemma_found(codes: Seq<(u16, u8, u8)>, i: int, from: int)
    requires
        0 <= from <= i < codes.len(),
        forall|j: int|
            0 <= j < codes.len() && (#[trigger] codes[j]).0 == codes[i].0 && codes[j].1
                == codes[i].1 ==> j == i,
    ensures
        find_code(codes, codes[i].0 as int, codes[i].1 as int, from) == Some(codes[i].2),
    decreases i - from,
{
    if from < i {
        lemma_found(codes, i, from + 1);
    }
}

/// No code of a prefix code is the beginning of another: at the bits of entry `i` nothing shorter
/// matches.
proof fn lemma_no_shorter(
    counts: Seq<u8>,
    symbols: Seq<u8>,
    i: int,
    bs: Seq<bool>,
    p: int,
    len: int,
)
    requires
        codes_defined(counts),
        prefix_code(counts),
        0 <= i < canonical_codes(counts, symbols).len(),
        1 <= len <= canonical_codes(counts, symbols)[i].1,
        p + canonical_codes(counts, symbols)[i].1 <= bs.len(),
        bits::value_at(bs, p, canonical_codes(counts, symbols)[i].1 as int) == canonical_codes(
            counts,
            symbols,
        )[i].0,
    ensures
        symbol_from(canonical_codes(counts, symbols), bs, p, len) == Ok::<(u8, int), Error>(
            (
                canonical_codes(counts, symbols)[i].2,
                p + canonical_codes(counts, symbols)[i].1,
            ),
        ),
    decreases canonical_codes(counts, symbols)[i].1 - len,
{
    let codes = canonical_codes(counts, symbols);
    let e = codes[i];
    let m = e.1 - 1;
    lemma_entry(counts, symbols, 16, i);
    if len == e.1 {
        assert forall|j: int|
            0 <= j < codes.len() && (#[trigger] codes[j]).0 == e.0 && codes[j].1
                == e.1 implies j == i by {
            lemma_entry(counts, symbols, 16, j);
        }
        lemma_found(codes, i, 0);
    } else {
        let v = bits::value_at(bs, p, len);
        assert forall|j: int| 0 <= j < codes.len() implies !((#[trigger] codes[j]).0 == v
            && codes[j].1 == len) by {
            lemma_entry(counts, symbols, 16, j);
            if codes[j].1 == len && codes[j].0 == v {
                let l = len - 1;
                lemma_first_code_exact(counts, m);
                lemma_first_code_exact(counts, l);
                lemma_code_gap(counts, l, m);
                lemma_value_prefix(bs, p, len, e.1 as int);
                let d = power2::pow2((m - l) as nat) as int;
                power2::lemma_pow2_pos((m - l) as nat);
                let top = code_space(counts, l) + counts[l];
                assert(e.0 >= d * top);
                assert(e.0 as int / d >= top) by (nonlinear_arith)
                    requires
                        e.0 >= d * top,
                        d > 0,
                ;
                assert(false);
            }
        }
        lemma_not_found(codes, v, len, 0);
        lemma_no_shorter(counts, symbols, i, bs, p, len + 1);
    }
}

/// A symbol with a code has an entry.
proof fn lemma_code_of_entry(codes: Seq<(u16, u8, u8)>, s: u8) -> (i: int)
    requires
        code_of(codes, s).1 > 0,
    ensures
        0 <= i < codes.len(),
        codes[i] == (code_of(codes, s).0, code_of(codes, s).1, s),
    decreases codes.len(),
{
    if codes.last().2 == s {
        codes.len() - 1
    } else {
        lemma_code_of_entry(codes.drop_last(), s)
    }
}

/// A symbol written with a prefix code is read back, and reading goes on right behind it.
pub proof fn law_symbol_round_trip(
    counts: Seq<u8>,
    symbols: Seq<u8>,
    s: u8,
    bs: Seq<bool>,
    p: int,
)
    requires
        counts.len() == 16,
        codes_defined(counts),
        prefix_code(counts),
        code_of(canonical_codes(counts, symbols), s).1 > 0,
        0 <= p,
        p + code_of(canonical_codes(counts, symbols), s).1 <= bs.len(),
        bs.subrange(p, p + code_of(canonical_codes(counts, symbols), s).1) == bits::low_bits(
            code_of(canonical_codes(counts, symbols), s).0 as u32,
            code_of(canonical_codes(counts, symbols), s).1 as nat,
        ),
    ensures
        symbol_at(canonical_codes(counts, symbols), bs, p) == Ok::<(u8, int), Error>(
            (s, p + code_of(canonical_codes(counts, symbols), s).1),
        ),
{
    let codes = canonical_codes(counts, symbols);
    let (code, len) = code_of(codes, s);
    let i = lemma_code_of_entry(codes, s);
    lemma_entry(counts, symbols, 16, i);
    lemma_code_fits(counts, symbols, i);
    assert forall|j: int| 0 <= j < len implies #[trigger] bs[p + j] == bits::nth_bit(
        code as u32,
        len - 1 - j,
    ) by {
        assert(bs[p + j] == bs.subrange(p, p + len)[j]);
    }
    bits::lemma_value_of_low_bits(bs, p, code as u32, len as int);
    lemma_no_shorter(counts, symbols, i, bs, p, 1);
}

/// Every code of a prefix code fits in its length.
pub proof fn lemma_code_fits(counts: Seq<u8>, symbols: Seq<u8>, i: int)
    requires
        codes_defined(counts),
        prefix_code(counts),
        0 <= i < canonical_codes(counts, symbols).len(),
    ensures
        1 <= canonical_codes(counts, symbols)[i].1 <= 16,
        canonical_codes(counts, symbols)[i].0 < power2::pow2(
            canonical_codes(counts, symbols)[i].1 as nat,
        ),
{
    lemma_entry(counts, symbols, 16, i);
    let l = canonical_codes(counts, symbols)[i].1 - 1;
    lemma_first_code_exact(counts, l);
    assert(code_space(counts, l) + counts[l] <= power2::pow2((l + 1) as nat));
}

/// The code under which a symbol is written fits in its length.
pub proof fn lemma_code_of_fits(counts: Seq<u8>, symbols: Seq<u8>, s: u8)
    requires
        codes_defined(counts),
        prefix_code(counts),
    ensures
        code_of(canonical_codes(counts, symbols), s).1 <= 16,
        code_of(canonical_codes(counts, symbols), s).0 < power2::pow2(
            code_of(canonical_codes(counts, symbols), s).1 as nat,
        ),
{
    let codes = canonical_codes(counts, symbols);
    power2::lemma2_to64();
    assert forall|i: int| 0 <= i < codes.len() implies (#[trigger] codes[i]).1 > 0 by {
        lemma_entry(counts, symbols, 16, i);
    }
    lemma_code_of_none(codes, s);
    if code_of(codes, s).1 > 0 {
        let i = lemma_code_of_entry(codes, s);
        lemma_code_fits(counts, symbols, i);
    }
}

proof fn lemma_code_of_none(codes: Seq<(u16, u8, u8)>, s: u8)
    requires
        forall|i: int| 0 <= i < codes.len() ==> (#[trigger] codes[i]).1 > 0,
    ensures
        code_of(codes, s).1 == 0 ==> code_of(codes, s).0 == 0,
    decreases codes.len(),
{
    if codes.len() > 0 {
        assert(codes[codes.len() - 1].1 > 0);
        lemma_code_of_none(codes.drop_last(), s);
    }
}

/// The entries stand in the order of the symbols.
proof fn lemma_codes_symbols(counts: Seq<u8>, symbols: Seq<u8>, l: int)
    requires
        0 <= l <= 16,
    ensures
        symbols_before(counts, l) >= 0,
        codes_upto(counts, symbols, l).len() == if symbols.len() < symbols_before(counts, l) {
            symbols.len() as int
        } else {
            symbols_before(counts, l)
        },
        forall|i: int|
            0 <= i < codes_upto(counts, symbols, l).len() ==> (#[trigger] codes_upto(
                counts,
                symbols,
                l,
            )[i]).2 == symbols[i] && codes_upto(counts, symbols, l)[i].1 > 0,
    decreases l,
{
    if l > 0 {
        lemma_codes_symbols(counts, symbols, l - 1);
    }
}

proof fn lemma_entry_code_of(codes: Seq<(u16, u8, u8)>, i: int)
    requires
        0 <= i < codes.len(),
        forall|j: int| 0 <= j < codes.len() ==> (#[trigger] codes[j]).1 > 0,
    ensures
        code_of(codes, codes[i].2).1 > 0,
    decreases codes.len(),
{
    assert(codes[codes.len() - 1].1 > 0);
    if codes.last().2 != codes[i].2 {
        assert(codes.drop_last()[i] == codes[i]);
        lemma_entry_code_of(codes.drop_last(), i);
    }
}

/// Every symbol that is counted has a code.
pub proof fn lemma_has_code(counts: Seq<u8>, symbols: Seq<u8>, i: int)
    requires
        0 <= i < symbols.len() <= symbols_before(counts, 16),
    ensures
        code_of(canonical_codes(counts, symbols), symbols[i]).1 > 0,
{
    lemma_codes_symbols(counts, symbols, 16);
    let codes = canonical_codes(counts, symbols);
    assert(codes[i].2 == symbols[i]);
    lemma_entry_code_of(codes, i);
}

/// Lengths without codes only append zero bits.
proof fn lemma_empty_levels(counts: Seq<u8>, l: int, m: int)
    requires
        0 <= l < m <= 16,
        symbols_before(counts, m) <= symbols_before(counts, l + 1),
    ensures
        code_space(counts, m) == power2::pow2((m - l) as nat) * (code_space(counts, l)
            + counts[l]),
        symbols_before(counts, m) == symbols_before(counts, l + 1),
    decreases m,
{
    let top = code_space(counts, l) + counts[l];
    power2::lemma2_to64();
    if m - 1 > l {
        lemma_before_grows(counts, l + 1, m - 1);
        lemma_empty_levels(counts, l, m - 1);
        power2::lemma_pow2_unfold((m - l) as nat);
        let half = power2::pow2((m - 1 - l) as nat) as int;
        assert(2 * (half * top) == 2 * half * top) by (nonlinear_arith);
    }
}

/// Longer codes can only add symbols.
proof fn lemma_before_grows(counts: Seq<u8>, l: int, m: int)
    requires
        0 <= l <= m,
    ensures
        symbols_before(counts, l) <= symbols_before(counts, m),
    decreases m,
{
    if l < m {
        lemma_before_grows(counts, l, m - 1);
    }
}

/// The length of an entry follows from how many codes there are of each length.
proof fn lemma_entry_length(counts: Seq<u8>, symbols: Seq<u8>, i: int)
    requires
        codes_defined(counts),
        0 <= i < canonical_codes(counts, symbols).len(),
    ensures
        ({
            let e = canonical_codes(counts, symbols)[i];
            &&& 1 <= e.1 <= 16
            &&& symbols_before(counts, e.1 - 1) <= i < symbols_before(counts, e.1 as int)
            &&& e.0 == first_code(counts, e.1 - 1) + i - symbols_before(counts, e.1 - 1)
            &&& e.2 == symbols[i]
            &&& counts[e.1 - 1] > 0
        }),
{
    let codes = canonical_codes(counts, symbols);
    let e = codes[i];
    lemma_entry(counts, symbols, 16, i);
    lemma_codes_symbols(counts, symbols, 16);
    lemma_codes_symbols(counts, symbols, e.1 - 1);
    assert(codes[i].2 == symbols[i]);
}

/// The canonical code: the symbols take the codes in order, `counts[l]` of them those of length
/// `l + 1`. The first code is zero, and each of the others is the one before it plus one, with zero
/// bits behind it where it is longer.
pub proof fn law_canonical_order(counts: Seq<u8>, symbols: Seq<u8>, i: int)
    requires
        codes_defined(counts),
        prefix_code(counts),
        0 <= i < canonical_codes(counts, symbols).len(),
    ensures
        ({
            let codes = canonical_codes(counts, symbols);
            let e = codes[i];
            &&& e.2 == symbols[i]
            &&& 1 <= e.1 <= 16
            &&& symbols_before(counts, e.1 - 1) <= i < symbols_before(counts, e.1 as int)
            &&& i == 0 ==> e.0 == 0
            &&& i + 1 < codes.len() ==> {
                let f = codes[i + 1];
                &&& e.1 <= f.1
                &&& f.0 == (e.0 + 1) * power2::pow2((f.1 - e.1) as nat)
            }
        }),
{
    let codes = canonical_codes(counts, symbols);
    let e = codes[i];
    let l = e.1 - 1;
    lemma_entry_length(counts, symbols, i);
    lemma_first_code_exact(counts, l);
    power2::lemma2_to64();
    if i == 0 {
        lemma_codes_symbols(counts, symbols, l);
        lemma_no_codes_before(counts, l);
    }
    if i + 1 < codes.len() {
        let f = codes[i + 1];
        let m = f.1 - 1;
        lemma_entry_length(counts, symbols, i + 1);
        lemma_first_code_exact(counts, m);
        if m < l {
            lemma_before_grows(counts, m + 1, l);
        } else if l < m {
            lemma_before_grows(counts, l + 1, m);
            lemma_empty_levels(counts, l, m);
            let d = power2::pow2((m - l) as nat) as int;
            let x = e.0 + 1;
            assert(x == code_space(counts, l) + counts[l]);
            assert(d * x == x * d) by (nonlinear_arith);
        } else {
            let x = e.0 + 1;
            assert(x * 1 == x);
        }
    }
}

/// Without shorter codes the first code of a length is zero.
proof fn lemma_no_codes_before(counts: Seq<u8>, l: int)
    requires
        0 <= l <= 16,
        symbols_before(counts, l) <= 0,
    ensures
        first_code(counts, l) == 0,
    decreases l,
{
    if l > 0 {
        lemma_before_grows(counts, 0, l - 1);
        lemma_no_codes_before(counts, l - 1);
    }
}

/// Entry `i` is the first with this code and length.
pub open spec fn first_match(codes: Seq<(u16, u8, u8)>, code: int, len: int, i: int) -> bool {
    &&& 0 <= i < codes.len()
    &&& codes[i].0 == code && codes[i].1 == len
    &&& forall|j: int| 0 <= j < i ==> !((#[trigger] codes[j]).0 == code && codes[j].1 == len)
}

/// No entry has this code and length.
pub open spec fn no_match(codes: Seq<(u16, u8, u8)>, code: int, len: int) -> bool {
    forall|j: int| 0 <= j < codes.len() ==> !((#[trigger] codes[j]).0 == code && codes[j].1 == len)
}

proof fn lemma_find(codes: Seq<(u16, u8, u8)>, code: int, len: int, from: int)
    requires
        0 <= from <= codes.len(),
        forall|j: int|
            0 <= j < from ==> !((#[trigger] codes[j]).0 == code && codes[j].1 == len),
    ensures
        match find_code(codes, code, len, from) {
            Some(s) => exists|i: int| #[trigger] first_match(codes, code, len, i) && codes[i].2 == s,
            None => no_match(codes, code, len),
        },
    decreases codes.len() - from,
{
    if from < codes.len() {
        if codes[from].0 == code && codes[from].1 == len {
            assert(first_match(codes, code, len, from));
        } else {
            lemma_find(codes, code, len, from + 1);
        }
    }
}

/// A symbol that is read stands in the first entry whose code the bits begin with, at the shortest
/// length at which there is one. There is an error only where no code of up to 16 bits fits: too few
/// bits, or none of the codes.
pub proof fn law_symbol_read(codes: Seq<(u16, u8, u8)>, bs: Seq<bool>, p: int, len: int)
    requires
        1 <= len <= 17,
        forall|n: int| 1 <= n < len ==> no_match(codes, #[trigger] bits::value_at(bs, p, n), n),
    ensures
        match symbol_from(codes, bs, p, len) {
            Ok((s, q)) => {
                &&& len <= q - p <= 16
                &&& q <= bs.len()
                &&& forall|n: int|
                    1 <= n < q - p ==> no_match(codes, #[trigger] bits::value_at(bs, p, n), n)
                &&& exists|i: int| #[trigger]
                    first_match(codes, bits::value_at(bs, p, q - p), q - p, i) && codes[i].2 == s
            },
            Err(e) => {
                let n = if e == Error::BadHuffman {
                    16
                } else {
                    bs.len() - p
                };
                &&& e == Error::BadHuffman || e == Error::Truncated && n < 16
                &&& forall|k: int|
                    1 <= k <= n ==> no_match(codes, #[trigger] bits::value_at(bs, p, k), k)
            },
        },
    decreases 17 - len,
{
    if len <= 16 && p + len <= bs.len() {
        let v = bits::value_at(bs, p, len);
        lemma_find(codes, v, len, 0);
        if find_code(codes, v, len, 0) is None {
            law_symbol_read(codes, bs, p, len + 1);
        }
    }
}

} // verus!
