//! Encoding: three components at full resolution, with fixed quantization and Huffman tables.
//!
//! The forward transform of a block is handed in as a function.
use vstd::arithmetic::power2;
use vstd::prelude::*;

use crate::image::{Image, Picture};
use crate::jpg::amplitude;
use crate::jpg::bits;
use crate::jpg::error::Error;
use crate::jpg::huffman;
use crate::jpg::huffman::EncTable;
use crate::jpg::scan;
use crate::jpg::writer;
use crate::jpg::writer::BitWriter;
use crate::jpg::zigzag;
use crate::jpg::zigzag::ZIGZAG;

verus! {

/// Quantization table for luma, in natural order, of middle quality.
pub const Q_LUMA: [u16; 64] = [
    16, 11, 10, 16, 24, 40, 51, 61, 12, 12, 14, 19, 26, 58, 60, 55, 14, 13, 16, 24, 40, 57, 69, 56,
    14, 17, 22, 29, 51, 87, 80, 62, 18, 22, 37, 56, 68, 109, 103, 77, 24, 35, 55, 64, 81, 104, 113,
    92, 49, 64, 78, 87, 103, 121, 120, 101, 72, 92, 95, 98, 112, 100, 103, 99,
];

/// Quantization table for chroma, in natural order, of middle quality.
pub const Q_CHROMA: [u16; 64] = [
    17, 18, 24, 47, 99, 99, 99, 99, 18, 21, 26, 66, 99, 99, 99, 99, 24, 26, 56, 99, 99, 99, 99, 99,
    47, 66, 99, 99, 99, 99, 99, 99, 99, 99, 99, 99, 99, 99, 99, 99, 99, 99, 99, 99, 99, 99, 99, 99,
    99, 99, 99, 99, 99, 99, 99, 99, 99, 99, 99, 99, 99, 99, 99, 99,
];

/// The largest side that is encoded.
pub const MAX_SIDE: u32 = 65500;

/// Quantized coefficients have at most ten bits.
pub const MAX_LEVEL: i32 = 1023;

/// What the forward transform may give: 8-bit samples stay well below.
pub const MAX_COEF: i32 = 8192;

/// Sizes of a first coefficient's difference.
pub open spec fn dc_symbol_seq() -> Seq<u8> {
    Seq::new(12, |i: int| i as u8)
}

/// End of block, sixteen zeros, and every run of up to fifteen zeros with a size of up to ten.
pub open spec fn ac_symbol_seq() -> Seq<u8> {
    seq![0x00u8, 0xF0] + Seq::new(160, |i: int| (i / 10 * 16 + i % 10 + 1) as u8)
}

/// Twelve codes of four bits.
pub open spec fn dc_counts() -> Seq<u8> {
    Seq::new(16, |i: int| if i == 3 { 12u8 } else { 0u8 })
}

/// 162 codes of eight bits.
pub open spec fn ac_counts() -> Seq<u8> {
    Seq::new(16, |i: int| if i == 7 { 162u8 } else { 0u8 })
}

/// The code for first coefficients.
pub open spec fn dc_codes() -> Seq<(u16, u8, u8)> {
    huffman::canonical_codes(dc_counts(), dc_symbol_seq())
}

/// The code for the other coefficients.
pub open spec fn ac_codes() -> Seq<(u16, u8, u8)> {
    huffman::canonical_codes(ac_counts(), ac_symbol_seq())
}

/// A symbol as bits.
pub open spec fn symbol_bits(codes: Seq<(u16, u8, u8)>, s: u8) -> Seq<bool> {
    bits::low_bits(huffman::code_of(codes, s).0 as u32, huffman::code_of(codes, s).1 as nat)
}

/// The size of a coefficient.
pub open spec fn size_of_coef(v: int) -> nat {
    amplitude::bit_length(amplitude::magnitude(v))
}

/// A coefficient as bits, without its size.
pub open spec fn coef_bits(v: int) -> Seq<bool> {
    bits::low_bits(amplitude::amplitude_code(v, size_of_coef(v) as int) as u32, size_of_coef(v))
}

/// `n` times sixteen zeros.
pub open spec fn zero_runs(n: int) -> Seq<bool>
    decreases n,
{
    if n <= 0 {
        Seq::empty()
    } else {
        symbol_bits(ac_codes(), 0xF0) + zero_runs(n - 1)
    }
}

/// A block from place `k` in zigzag order on, behind `run` zeros that have not been written.
pub open spec fn ac_bits(block: Seq<i32>, k: int, run: int) -> Seq<bool>
    decreases 64 - k,
{
    if k >= 64 {
        if run > 0 {
            symbol_bits(ac_codes(), 0x00)
        } else {
            Seq::empty()
        }
    } else {
        let v = block[zigzag::ZIGZAG@[k] as int] as int;
        if v == 0 {
            ac_bits(block, k + 1, run + 1)
        } else {
            zero_runs(run / 16) + symbol_bits(ac_codes(), (run % 16 * 16 + size_of_coef(v)) as u8)
                + coef_bits(v) + ac_bits(block, k + 1, 0)
        }
    }
}

/// A block as bits, its first coefficient as the difference from `pred`.
pub open spec fn block_bits(pred: int, block: Seq<i32>) -> Seq<bool> {
    symbol_bits(dc_codes(), size_of_coef(block[0] - pred) as u8) + coef_bits(block[0] - pred)
        + ac_bits(block, 1, 0)
}

/// The first coefficient of the block before block `n` of the same component.
pub open spec fn pred_of(blocks: Seq<Seq<i32>>, n: int) -> int {
    if n < 3 {
        0
    } else {
        blocks[n - 3][0] as int
    }
}

/// The first `n` blocks as bits. The three components take turns.
pub open spec fn blocks_bits(blocks: Seq<Seq<i32>>, n: int) -> Seq<bool>
    decreases n,
{
    if n <= 0 {
        Seq::empty()
    } else {
        blocks_bits(blocks, n - 1) + block_bits(pred_of(blocks, n - 1), blocks[n - 1])
    }
}

/// Start of image, and a JFIF segment.
pub open spec fn intro_bytes() -> Seq<u8> {
    seq![
        0xFFu8, 0xD8, 0xFF, 0xE0, 0x00, 0x10, 0x4A, 0x46, 0x49, 0x46, 0x00, 0x01, 0x01, 0x00, 0x00,
        0x01, 0x00, 0x01, 0x00, 0x00,
    ]
}

/// A quantization table in zigzag order.
pub open spec fn table_bytes(table: Seq<u16>) -> Seq<u8> {
    Seq::new(64, |j: int| table[zigzag::ZIGZAG@[j] as int] as u8)
}

/// The segment with both quantization tables.
pub open spec fn quant_segment() -> Seq<u8> {
    seq![0xFFu8, 0xDB, 0x00, 0x84, 0x00] + table_bytes(Q_LUMA@) + seq![0x01u8] + table_bytes(
        Q_CHROMA@,
    )
}

/// A number as two bytes, high byte first.
pub open spec fn be16_bytes(v: int) -> Seq<u8> {
    seq![(v / 256) as u8, (v % 256) as u8]
}

/// The frame header.
pub open spec fn frame_segment(w: int, h: int) -> Seq<u8> {
    seq![0xFFu8, 0xC0, 0x00, 0x11, 0x08] + be16_bytes(h) + be16_bytes(w) + seq![
        0x03u8, 0x01, 0x11, 0x00, 0x02, 0x11, 0x01, 0x03, 0x11, 0x01,
    ]
}

/// A segment with one Huffman table. `info` is its class, times sixteen, and its number.
pub open spec fn huffman_segment(info: u8, counts: Seq<u8>, symbols: Seq<u8>) -> Seq<u8> {
    seq![0xFFu8, 0xC4] + be16_bytes(19 + symbols.len() as int) + seq![info] + counts + symbols
}

/// The four Huffman tables.
pub open spec fn huffman_segments() -> Seq<u8> {
    huffman_segment(0x00, dc_counts(), dc_symbol_seq()) + huffman_segment(
        0x10,
        ac_counts(),
        ac_symbol_seq(),
    ) + huffman_segment(0x01, dc_counts(), dc_symbol_seq()) + huffman_segment(
        0x11,
        ac_counts(),
        ac_symbol_seq(),
    )
}

/// The scan header.
pub open spec fn scan_segment() -> Seq<u8> {
    seq![
        0xFFu8, 0xDA, 0x00, 0x0C, 0x03, 0x01, 0x00, 0x02, 0x11, 0x03, 0x11, 0x00, 0x3F, 0x00,
    ]
}

/// All that stands in front of the entropy-coded data.
pub open spec fn header_bytes(w: int, h: int) -> Seq<u8> {
    intro_bytes() + quant_segment() + frame_segment(w, h) + huffman_segments() + scan_segment()
}

/// End of image.
pub open spec fn end_bytes() -> Seq<u8> {
    seq![0xFFu8, 0xD9]
}

/// A file that holds these quantized blocks.
pub open spec fn stream(w: int, h: int, blocks: Seq<Seq<i32>>) -> Seq<u8> {
    header_bytes(w, h) + writer::entropy_coded(blocks_bits(blocks, blocks.len() as int))
        + end_bytes()
}

/// Blocks that the fixed Huffman tables can express.
pub open spec fn blocks_ok(blocks: Seq<Seq<i32>>) -> bool {
    forall|n: int| 0 <= n < blocks.len() ==> block_ok(#[trigger] blocks[n])
}

/// A block that the fixed Huffman tables can express.
pub open spec fn block_ok(block: Seq<i32>) -> bool {
    block.len() == 64 && forall|j: int|
        0 <= j < 64 ==> -MAX_LEVEL <= #[trigger] block[j] <= MAX_LEVEL
}

/// The bytes of a slice go to the end.
fn append(out: &mut Vec<u8>, bytes: &[u8])
    ensures
        final(out)@ == old(out)@ + bytes@,
{
    let mut i: usize = 0;
    assert(out@ =~= old(out)@ + bytes@.take(0));
    while i < bytes.len()
        invariant
            i <= bytes@.len(),
            out@ == old(out)@ + bytes@.take(i as int),
        decreases bytes@.len() - i,
    {
        out.push(bytes[i]);
        i += 1;
        assert(out@ =~= old(out)@ + bytes@.take(i as int));
    }
    assert(bytes@.take(i as int) =~= bytes@);
}

/// A number goes to the end as two bytes, high byte first.
pub fn be16(v: u16, out: &mut Vec<u8>)
    ensures
        final(out)@ == old(out)@ + be16_bytes(v as int),
{
    out.push((v / 256) as u8);
    out.push((v % 256) as u8);
    assert(out@ =~= old(out)@ + be16_bytes(v as int));
}

/// Sizes of a first coefficient's difference.
pub fn dc_symbols() -> (v: Vec<u8>)
    ensures
        v@ == dc_symbol_seq(),
{
    let mut v: Vec<u8> = Vec::new();
    let mut i: u8 = 0;
    while i < 12
        invariant
            i <= 12,
            v@ == dc_symbol_seq().take(i as int),
        decreases 12 - i,
    {
        v.push(i);
        i += 1;
        assert(v@ =~= dc_symbol_seq().take(i as int));
    }
    assert(dc_symbol_seq().take(12) =~= dc_symbol_seq());
    v
}

/// End of block, sixteen zeros, and every run of up to fifteen zeros with a size of up to ten.
pub fn ac_symbols() -> (v: Vec<u8>)
    ensures
        v@ == ac_symbol_seq(),
{
    let mut v: Vec<u8> = Vec::new();
    v.push(0x00);
    v.push(0xF0);
    let mut run: u8 = 0;
    assert(v@ =~= ac_symbol_seq().take(2));
    while run < 16
        invariant
            run <= 16,
            v@ == ac_symbol_seq().take(2 + 10 * run),
        decreases 16 - run,
    {
        let mut size: u8 = 1;
        while size <= 10
            invariant
                run < 16,
                1 <= size <= 11,
                v@ == ac_symbol_seq().take(2 + 10 * run + size - 1),
            decreases 11 - size,
        {
            let ghost i = 10 * run + size - 1;
            assert(i / 10 == run && i % 10 == size - 1);
            v.push(run * 16 + size);
            size += 1;
            assert(v@ =~= ac_symbol_seq().take(2 + 10 * run + size - 1));
        }
        run += 1;
    }
    assert(ac_symbol_seq().take(162) =~= ac_symbol_seq());
    v
}

/// The four-bit codes are a prefix code.
pub proof fn lemma_dc_code()
    ensures
        huffman::codes_defined(dc_counts()),
        huffman::prefix_code(dc_counts()),
        huffman::symbols_before(dc_counts(), 16) == 12,
{
    reveal_with_fuel(huffman::first_code, 17);
    reveal_with_fuel(huffman::code_space, 17);
    reveal_with_fuel(huffman::symbols_before, 17);
    power2::lemma2_to64();
}

/// The eight-bit codes are a prefix code.
pub proof fn lemma_ac_code()
    ensures
        huffman::codes_defined(ac_counts()),
        huffman::prefix_code(ac_counts()),
        huffman::symbols_before(ac_counts(), 16) == 162,
{
    reveal_with_fuel(huffman::first_code, 17);
    reveal_with_fuel(huffman::code_space, 17);
    reveal_with_fuel(huffman::symbols_before, 17);
    power2::lemma2_to64();
}

/// `t` writes symbols with `codes`.
pub open spec fn writes(t: &EncTable, codes: Seq<(u16, u8, u8)>) -> bool {
    forall|s: u8| #[trigger] t@[s as int] == huffman::code_of(codes, s)
}

/// A small coefficient has a small size, and its bits are few enough.
pub proof fn lemma_coef(v: int, n: nat)
    requires
        magnitude_below(v, n),
        n <= 16,
    ensures
        size_of_coef(v) <= n,
        size_of_coef(v) == 0 <==> v == 0,
        0 <= amplitude::amplitude_code(v, size_of_coef(v) as int) < power2::pow2(size_of_coef(v)),
        power2::pow2(size_of_coef(v)) <= 0x10000,
        amplitude::extended(
            amplitude::amplitude_code(v, size_of_coef(v) as int),
            size_of_coef(v) as int,
        ) == v,
{
    let m = amplitude::magnitude(v);
    amplitude::lemma_bit_length_bound(m, n);
    amplitude::lemma_bit_length(m);
    amplitude::law_amplitude_round_trip(v);
    power2::lemma2_to64();
    if size_of_coef(v) < 16 {
        power2::lemma_pow2_strictly_increases(size_of_coef(v), 16);
    }
}

pub open spec fn magnitude_below(v: int, n: nat) -> bool {
    amplitude::magnitude(v) < power2::pow2(n)
}

/// Writes a symbol.
fn put_symbol(w: &mut BitWriter, t: &EncTable, s: u8, Ghost(codes): Ghost<Seq<(u16, u8, u8)>>)
    requires
        old(w).wf(),
        writes(t, codes),
        huffman::code_of(codes, s).1 <= 16,
        huffman::code_of(codes, s).0 < power2::pow2(huffman::code_of(codes, s).1 as nat),
    ensures
        final(w).wf(),
        final(w)@ == old(w)@ + symbol_bits(codes, s),
{
    let (code, len): (u16, u8) = t.code(s);
    assert((code, len) == huffman::code_of(codes, s));
    w.bits(code, len);
}

/// Writes the bits of a coefficient of at most eleven bits.
fn put_coef(w: &mut BitWriter, v: i32, size: u8)
    requires
        old(w).wf(),
        -2047 <= v <= 2047,
        size == size_of_coef(v as int),
    ensures
        final(w).wf(),
        final(w)@ == old(w)@ + coef_bits(v as int),
{
    proof {
        power2::lemma2_to64();
        lemma_coef(v as int, 11);
    }
    w.amplitude(v, size);
    proof {
        if size == 0 {
            assert(w@ =~= old(w)@ + coef_bits(v as int));
        }
    }
}

/// Writes one block.
fn write_block(w: &mut BitWriter, dc: &EncTable, ac: &EncTable, pred: i32, block: &[i32; 64])
    requires
        old(w).wf(),
        writes(dc, dc_codes()),
        writes(ac, ac_codes()),
        block_ok(block@),
        -MAX_LEVEL <= pred <= MAX_LEVEL,
    ensures
        final(w).wf(),
        final(w)@ == old(w)@ + block_bits(pred as int, block@),
{
    proof {
        lemma_dc_code();
        lemma_ac_code();
        zigzag::law_zigzag_is_permutation();
        power2::lemma2_to64();
    }
    assert(-MAX_LEVEL <= block@[0] <= MAX_LEVEL);
    let diff: i32 = block[0] - pred;
    let s: u8 = amplitude::category(diff);
    proof {
        huffman::lemma_code_of_fits(dc_counts(), dc_symbol_seq(), s);
    }
    put_symbol(w, dc, s, Ghost(dc_codes()));
    put_coef(w, diff, s);
    let ghost base = w@;
    assert(base =~= old(w)@ + (symbol_bits(dc_codes(), s) + coef_bits(diff as int)));
    let mut zero_run: u8 = 0;
    let mut k: usize = 1;
    while k < 64
        invariant
            1 <= k <= 64,
            zero_run < k,
            w.wf(),
            writes(ac, ac_codes()),
            block_ok(block@),
            forall|j: int| 0 <= j < 64 ==> (#[trigger] ZIGZAG@[j]) < 64,
            w@ + ac_bits(block@, k as int, zero_run as int) == base + ac_bits(block@, 1, 0),
        decreases 64 - k,
    {
        proof {
            lemma_ac_code();
            power2::lemma2_to64();
        }
        assert(ZIGZAG@[k as int] < 64);
        let v: i32 = block[ZIGZAG[k]];
        assert(-MAX_LEVEL <= block@[ZIGZAG@[k as int] as int] <= MAX_LEVEL);
        if v == 0 {
            zero_run += 1;
            k += 1;
            continue;
        }
        let ghost run = zero_run as int;
        let ghost before = w@;
        proof {
            lemma_coef(v as int, 10);
            assert(w@ + zero_runs(0) =~= w@);
            assert(zero_runs(run / 16) =~= Seq::<bool>::empty() + zero_runs(run / 16));
        }
        while zero_run > 15
            invariant
                zero_run <= run < 64,
                run % 16 == zero_run % 16,
                w.wf(),
                writes(ac, ac_codes()),
                w@ + zero_runs(zero_run as int / 16) == before + zero_runs(run / 16),
            decreases zero_run,
        {
            proof {
                lemma_ac_code();
                huffman::lemma_code_of_fits(ac_counts(), ac_symbol_seq(), 0xF0);
            }
            let ghost here = w@;
            put_symbol(w, ac, 0xF0, Ghost(ac_codes()));
            zero_run -= 16;
            assert((zero_run + 16) / 16 == zero_run / 16 + 1);
            assert(here + (symbol_bits(ac_codes(), 0xF0) + zero_runs(zero_run as int / 16)) =~= w@
                + zero_runs(zero_run as int / 16));
        }
        assert(w@ =~= w@ + zero_runs(0));
        let s: u8 = amplitude::category(v);
        let rs: u8 = zero_run * 16 + s;
        proof {
            huffman::lemma_code_of_fits(ac_counts(), ac_symbol_seq(), rs);
        }
        put_symbol(w, ac, rs, Ghost(ac_codes()));
        put_coef(w, v, s);
        proof {
            let rest = ac_bits(block@, k + 1, 0);
            assert(rs == (run % 16 * 16 + size_of_coef(v as int)) as u8);
            assert(w@ + rest =~= before + (zero_runs(run / 16) + symbol_bits(ac_codes(), rs)
                + coef_bits(v as int) + rest));
        }
        zero_run = 0;
        k += 1;
    }
    if zero_run > 0 {
        proof {
            lemma_ac_code();
            huffman::lemma_code_of_fits(ac_counts(), ac_symbol_seq(), 0x00);
        }
        put_symbol(w, ac, 0x00, Ghost(ac_codes()));
    } else {
        assert(w@ + ac_bits(block@, 64, 0) =~= w@);
    }
    assert(w@ =~= base + ac_bits(block@, 1, 0));
    assert(w@ =~= old(w)@ + block_bits(pred as int, block@));
}

/// The coefficients of each block.
pub open spec fn block_seqs(blocks: Seq<[i32; 64]>) -> Seq<Seq<i32>> {
    Seq::new(blocks.len(), |n: int| blocks[n]@)
}

fn put_table(out: &mut Vec<u8>, table: &[u16; 64])
    ensures
        final(out)@ == old(out)@ + table_bytes(table@),
{
    proof {
        zigzag::law_zigzag_is_permutation();
    }
    let mut j: usize = 0;
    assert(out@ =~= old(out)@ + table_bytes(table@).take(0));
    while j < 64
        invariant
            j <= 64,
            out@ == old(out)@ + table_bytes(table@).take(j as int),
            forall|j: int| 0 <= j < 64 ==> (#[trigger] ZIGZAG@[j]) < 64,
        decreases 64 - j,
    {
        assert(ZIGZAG@[j as int] < 64);
        out.push(#[verifier::truncate] (table[ZIGZAG[j]] as u8));
        j += 1;
        assert(out@ =~= old(out)@ + table_bytes(table@).take(j as int));
    }
    assert(table_bytes(table@).take(64) =~= table_bytes(table@));
}

fn put_huffman(out: &mut Vec<u8>, info: u8, counts: &[u8; 16], symbols: &Vec<u8>)
    requires
        symbols@.len() <= 256,
    ensures
        final(out)@ == old(out)@ + huffman_segment(info, counts@, symbols@),
{
    out.push(0xFF);
    out.push(0xC4);
    be16((19 + symbols.len()) as u16, out);
    out.push(info);
    append(out, counts.as_slice());
    append(out, symbols.as_slice());
    assert(out@ =~= old(out)@ + huffman_segment(info, counts@, symbols@));
}

/// Writes a file that holds quantized blocks. The three components take turns, for each square of
/// eight by eight pixels, row by row.
pub fn encode_blocks(w: u32, h: u32, blocks: &Vec<[i32; 64]>) -> (out: Vec<u8>)
    requires
        w <= 0xFFFF,
        h <= 0xFFFF,
        blocks_ok(block_seqs(blocks@)),
    ensures
        out@ == stream(w as int, h as int, block_seqs(blocks@)),
{
    let dc_syms: Vec<u8> = dc_symbols();
    let ac_syms: Vec<u8> = ac_symbols();
    let dc_n: [u8; 16] = [0, 0, 0, 12, 0, 0, 0, 0, 0, 0, 0, 0, 0, 0, 0, 0];
    let ac_n: [u8; 16] = [0, 0, 0, 0, 0, 0, 0, 162, 0, 0, 0, 0, 0, 0, 0, 0];
    assert(dc_n@ =~= dc_counts());
    assert(ac_n@ =~= ac_counts());
    proof {
        lemma_dc_code();
        lemma_ac_code();
    }
    let dc: EncTable = EncTable::build(dc_n, dc_syms.as_slice());
    let ac: EncTable = EncTable::build(ac_n, ac_syms.as_slice());
    let mut out: Vec<u8> = Vec::new();
    let intro: [u8; 20] = [
        0xFF, 0xD8, 0xFF, 0xE0, 0x00, 0x10, 0x4A, 0x46, 0x49, 0x46, 0x00, 0x01, 0x01, 0x00, 0x00,
        0x01, 0x00, 0x01, 0x00, 0x00,
    ];
    append(&mut out, intro.as_slice());
    assert(out@ =~= intro_bytes());
    let quant_head: [u8; 5] = [0xFF, 0xDB, 0x00, 0x84, 0x00];
    append(&mut out, quant_head.as_slice());
    put_table(&mut out, &Q_LUMA);
    out.push(0x01);
    put_table(&mut out, &Q_CHROMA);
    assert(out@ =~= intro_bytes() + quant_segment());
    let frame_head: [u8; 5] = [0xFF, 0xC0, 0x00, 0x11, 0x08];
    append(&mut out, frame_head.as_slice());
    be16(h as u16, &mut out);
    be16(w as u16, &mut out);
    let comps: [u8; 10] = [0x03, 0x01, 0x11, 0x00, 0x02, 0x11, 0x01, 0x03, 0x11, 0x01];
    append(&mut out, comps.as_slice());
    assert(out@ =~= intro_bytes() + quant_segment() + frame_segment(w as int, h as int));
    put_huffman(&mut out, 0x00, &dc_n, &dc_syms);
    put_huffman(&mut out, 0x10, &ac_n, &ac_syms);
    put_huffman(&mut out, 0x01, &dc_n, &dc_syms);
    put_huffman(&mut out, 0x11, &ac_n, &ac_syms);
    let scan_head: [u8; 14] = [
        0xFF, 0xDA, 0x00, 0x0C, 0x03, 0x01, 0x00, 0x02, 0x11, 0x03, 0x11, 0x00, 0x3F, 0x00,
    ];
    append(&mut out, scan_head.as_slice());
    assert(out@ =~= header_bytes(w as int, h as int));
    let ghost seqs = block_seqs(blocks@);
    let mut bw = BitWriter::new();
    let mut n: usize = 0;
    while n < blocks.len()
        invariant
            n <= blocks@.len(),
            seqs == block_seqs(blocks@),
            blocks_ok(seqs),
            bw.wf(),
            bw@ == blocks_bits(seqs, n as int),
            writes(&dc, dc_codes()),
            writes(&ac, ac_codes()),
        decreases blocks@.len() - n,
    {
        assert(block_ok(seqs[n as int]));
        let pred: i32 = if n < 3 {
            0
        } else {
            assert(block_ok(seqs[n - 3]));
            assert(-MAX_LEVEL <= seqs[n - 3][0] <= MAX_LEVEL);
            blocks[n - 3][0]
        };
        write_block(&mut bw, &dc, &ac, pred, &blocks[n]);
        n += 1;
    }
    let coded: Vec<u8> = bw.finish();
    append(&mut out, coded.as_slice());
    out.push(0xFF);
    out.push(0xD9);
    assert(out@ =~= stream(w as int, h as int, seqs));
    out
}

/// A coefficient divided by its quantization step and rounded, halves away from zero.
pub open spec fn quantized(v: int, q: int) -> int {
    if v >= 0 {
        (v + q / 2) / q
    } else {
        -((-v + q / 2) / q)
    }
}

/// A coefficient comes back, times its step, with an error of at most half a step. Of two results
/// that are half a step away the one further from zero is taken.
pub proof fn law_quantized(v: int, q: int)
    requires
        q >= 1,
    ensures
        -q <= 2 * (v - quantized(v, q) * q) <= q,
        v >= 0 && q % 2 == 0 ==> 2 * (v - quantized(v, q) * q) < q,
        v < 0 && q % 2 == 0 ==> -q < 2 * (v - quantized(v, q) * q),
        quantized(-v, q) == -quantized(v, q),
{
    vstd::arithmetic::div_mod::lemma_basic_div(q / 2, q);
    let a = if v >= 0 {
        v
    } else {
        -v
    };
    let n = (a + q / 2) / q;
    vstd::arithmetic::div_mod::lemma_fundamental_div_mod(a + q / 2, q);
    vstd::arithmetic::div_mod::lemma_mod_bound(a + q / 2, q);
    assert(q * n == n * q && (-n) * q == -(n * q)) by (nonlinear_arith);
}

/// A block of coefficients divided by a table.
pub open spec fn quantized_block(d: Seq<i32>, table: Seq<u16>) -> Seq<i32> {
    Seq::new(64, |j: int| quantized(d[j] as int, table[j] as int) as i32)
}

/// The quantization table of a component.
pub open spec fn table_of(ci: int) -> Seq<u16> {
    if ci == 0 {
        Q_LUMA@
    } else {
        Q_CHROMA@
    }
}

/// A place in a row of `n`, or the last one for a place beyond.
pub open spec fn clipped(x: int, n: int) -> int {
    if x < n {
        x
    } else {
        n - 1
    }
}

/// One channel of the square of eight by eight pixels in column `mx` and row `my`. Past the edge
/// the last pixels repeat.
pub open spec fn square(p: Picture, channel: int, mx: int, my: int) -> Seq<u8> {
    Seq::new(
        64,
        |i: int|
            p.rgb[p.offset(clipped(8 * mx + i % 8, p.width), clipped(8 * my + i / 8, p.height))
                + channel],
    )
}

/// `forward` makes the coefficients `d` of component `ci` in a square.
pub open spec fn forward_of<F: Fn([u8; 64], [u8; 64], [u8; 64], usize) -> [i32; 64]>(
    forward: F,
    p: Picture,
    mx: int,
    my: int,
    ci: int,
    d: Seq<i32>,
) -> bool {
    exists|r: [u8; 64], g: [u8; 64], b: [u8; 64], out: [i32; 64]|
        {
            &&& r@ == square(p, 0, mx, my)
            &&& g@ == square(p, 1, mx, my)
            &&& b@ == square(p, 2, mx, my)
            &&& out@ == d
            &&& #[trigger] call_ensures(forward, (r, g, b, ci as usize), out)
        }
}

/// Block `n` of a picture, given the forward transform: the three components take turns, for each
/// square, row by row.
pub open spec fn picture_block<F: Fn([u8; 64], [u8; 64], [u8; 64], usize) -> [i32; 64]>(
    forward: F,
    p: Picture,
    n: int,
    block: Seq<i32>,
) -> bool {
    let across = scan::pieces(p.width, 8);
    exists|d: Seq<i32>|
        #[trigger] forward_of(forward, p, n / 3 % across, n / 3 / across, n % 3, d) && block
            == quantized_block(d, table_of(n % 3))
}

/// The quantized blocks of a picture, given the forward transform.
pub open spec fn picture_blocks<F: Fn([u8; 64], [u8; 64], [u8; 64], usize) -> [i32; 64]>(
    forward: F,
    p: Picture,
    blocks: Seq<Seq<i32>>,
) -> bool {
    &&& blocks.len() == scan::pieces(p.width, 8) * scan::pieces(p.height, 8) * 3
    &&& forall|n: int| 0 <= n < blocks.len() ==> picture_block(forward, p, n, #[trigger] blocks[n])
}

/// Sizes that are encoded.
pub open spec fn encodable(p: Picture) -> bool {
    1 <= p.width <= MAX_SIDE && 1 <= p.height <= MAX_SIDE
}

/// Whatever `forward` gives stays in range.
pub open spec fn bounded<F: Fn([u8; 64], [u8; 64], [u8; 64], usize) -> [i32; 64]>(
    forward: F,
) -> bool {
    forall|r: [u8; 64], g: [u8; 64], b: [u8; 64], ci: usize, out: [i32; 64]|
        #[trigger] call_ensures(forward, (r, g, b, ci), out) ==> forall|j: int|
            0 <= j < 64 ==> -MAX_COEF <= #[trigger] out@[j] <= MAX_COEF
}

/// Quantization steps are at least ten and fit in a byte.
pub proof fn lemma_steps(ci: int)
    ensures
        table_of(ci).len() == 64,
        forall|j: int| 0 <= j < 64 ==> 10 <= #[trigger] table_of(ci)[j] <= 121,
{
}

fn quantize(d: &[i32; 64], q: &[u16; 64], Ghost(ci): Ghost<int>) -> (z: [i32; 64])
    requires
        q@ == table_of(ci),
        forall|j: int| 0 <= j < 64 ==> -MAX_COEF <= #[trigger] d@[j] <= MAX_COEF,
    ensures
        z@ == quantized_block(d@, q@),
        block_ok(z@),
{
    let mut z = [0i32; 64];
    let mut j: usize = 0;
    proof {
        lemma_steps(ci);
    }
    while j < 64
        invariant
            j <= 64,
            forall|j: int| 0 <= j < 64 ==> -MAX_COEF <= #[trigger] d@[j] <= MAX_COEF,
            forall|j: int| 0 <= j < 64 ==> 10 <= #[trigger] q@[j] <= 121,
            forall|i: int|
                0 <= i < j ==> #[trigger] z@[i] == quantized(d@[i] as int, q@[i] as int)
                    && -MAX_LEVEL <= z@[i] <= MAX_LEVEL,
        decreases 64 - j,
    {
        let v: i32 = d[j];
        let s: i32 = q[j] as i32;
        assert(-MAX_COEF <= d@[j as int] <= MAX_COEF);
        assert(10 <= q@[j as int] <= 121);
        proof {
            lemma_level(v as int, s as int);
            lemma_level(-v as int, s as int);
        }
        z[j] = if v >= 0 {
            (v + s / 2) / s
        } else {
            -((-v + s / 2) / s)
        };
        j += 1;
    }
    assert(z@ =~= quantized_block(d@, q@));
    z
}

/// A coefficient in range has a level of at most ten bits.
proof fn lemma_level(v: int, s: int)
    requires
        -MAX_COEF <= v <= MAX_COEF,
        10 <= s <= 121,
    ensures
        v >= 0 ==> 0 <= (v + s / 2) / s <= MAX_LEVEL,
{
    if v >= 0 {
        let t = v + s / 2;
        assert(0 <= t <= 8252);
        vstd::arithmetic::div_mod::lemma_fundamental_div_mod(t, s);
        vstd::arithmetic::div_mod::lemma_mod_bound(t, s);
        let q = t / s;
        let r = t % s;
        assert(0 <= q <= 1023) by (nonlinear_arith)
            requires
                t == s * q + r,
                0 <= r < s,
                0 <= t <= 8252,
                10 <= s,
        ;
    }
}

/// Takes one channel of a square out of an image.
fn take_square(img: &Image, channel: usize, mx: u32, my: u32) -> (r: [u8; 64])
    requires
        img.wf(),
        encodable(img@),
        (img@.width * img@.height - 1) * 3 <= u32::MAX,
        channel < 3,
        mx <= 8192,
        my <= 8192,
    ensures
        r@ == square(img@, channel as int, mx as int, my as int),
{
    let rgb = img.as_rgb();
    let w: u32 = img.width();
    let h: u32 = img.height();
    let mut r = [0u8; 64];
    let mut i: usize = 0;
    while i < 64
        invariant
            i <= 64,
            img.wf(),
            encodable(img@),
            (img@.width * img@.height - 1) * 3 <= u32::MAX,
            channel < 3,
            mx <= 8192,
            my <= 8192,
            w == img@.width,
            h == img@.height,
            rgb@ == img@.rgb,
            forall|k: int|
                0 <= k < i ==> #[trigger] r@[k] == square(
                    img@,
                    channel as int,
                    mx as int,
                    my as int,
                )[k],
        decreases 64 - i,
    {
        let x: u32 = mx * 8 + (i % 8) as u32;
        let y: u32 = my * 8 + (i / 8) as u32;
        let px: u32 = if x < w {
            x
        } else {
            w - 1
        };
        let py: u32 = if y < h {
            y
        } else {
            h - 1
        };
        proof {
            crate::image::lemma_offset(img@, px as int, py as int);
        }
        assert(0 <= py * w && py * w + px <= w * h - 1) by (nonlinear_arith)
            requires
                0 <= px < w,
                0 <= py < h,
        ;
        let at: usize = ((py * w + px) * 3) as usize;
        assert(at + 2 < rgb.len());
        r[i] = rgb[at + channel];
        i += 1;
    }
    assert(r@ =~= square(img@, channel as int, mx as int, my as int));
    r
}

/// `out` is a file that shows the picture `p`, given the forward transform.
pub open spec fn encodes_to<F: Fn([u8; 64], [u8; 64], [u8; 64], usize) -> [i32; 64]>(
    forward: F,
    p: Picture,
    out: Seq<u8>,
) -> bool {
    exists|blocks: Seq<Seq<i32>>|
        {
            &&& picture_blocks(forward, p, blocks)
            &&& blocks_ok(blocks)
            &&& out == #[trigger] stream(p.width, p.height, blocks)
        }
}

/// Encodes an image.
///
/// `forward` makes the coefficients of component 0, 1 or 2 of a square, in natural order, from its
/// red, green and blue channels.
pub fn encode_image<F: Fn([u8; 64], [u8; 64], [u8; 64], usize) -> [i32; 64]>(
    img: &Image,
    forward: &F,
) -> (r: Result<Vec<u8>, Error>)
    requires
        img.wf(),
        encodable(img@) ==> (img@.width * img@.height - 1) * 3 <= u32::MAX,
        forall|r: [u8; 64], g: [u8; 64], b: [u8; 64], ci: usize|
            ci < 3 ==> call_requires(*forward, (r, g, b, ci)),
        bounded(*forward),
    ensures
        match r {
            Err(e) => e == Error::Encode && !encodable(img@),
            Ok(out) => encodable(img@) && encodes_to(*forward, img@, out@),
        },
{
    let w: u32 = img.width();
    let h: u32 = img.height();
    if w == 0 || h == 0 || w > MAX_SIDE || h > MAX_SIDE {
        return Err(Error::Encode);
    }
    let across: u32 = (w + 7) / 8;
    let down: u32 = (h + 7) / 8;
    proof {
        scan::lemma_pieces(w as int, 8);
        scan::lemma_pieces(h as int, 8);
    }
    assert(across == scan::pieces(img@.width, 8));
    assert(down == scan::pieces(img@.height, 8));
    assert(0 <= across * down <= 8192 * 8192) by (nonlinear_arith)
        requires
            0 <= across <= 8192,
            0 <= down <= 8192,
    ;
    let total: u32 = across * down * 3;
    let mut blocks: Vec<[i32; 64]> = Vec::new();
    let mut n: u32 = 0;
    while n < total
        invariant
            n <= total,
            total == across * down * 3,
            1 <= across <= 8192,
            1 <= down <= 8192,
            across == scan::pieces(img@.width, 8),
            img.wf(),
            encodable(img@),
            (img@.width * img@.height - 1) * 3 <= u32::MAX,
            forall|r: [u8; 64], g: [u8; 64], b: [u8; 64], ci: usize|
                ci < 3 ==> call_requires(*forward, (r, g, b, ci)),
            bounded(*forward),
            blocks@.len() == n,
            forall|k: int|
                0 <= k < n ==> picture_block(*forward, img@, k, (#[trigger] blocks@[k])@)
                    && block_ok(blocks@[k]@),
        decreases total - n,
    {
        let m: u32 = n / 3;
        let ci: usize = (n % 3) as usize;
        let mx: u32 = m % across;
        let my: u32 = m / across;
        proof {
            vstd::arithmetic::div_mod::lemma_mod_bound(m as int, across as int);
            vstd::arithmetic::div_mod::lemma_fundamental_div_mod(m as int, across as int);
            let q = m as int / across as int;
            let rest = m as int % across as int;
            assert(0 <= q < down) by (nonlinear_arith)
                requires
                    m == across * q + rest,
                    0 <= rest < across,
                    0 <= m < across * down,
            ;
        }
        let r: [u8; 64] = take_square(img, 0, mx, my);
        let g: [u8; 64] = take_square(img, 1, mx, my);
        let b: [u8; 64] = take_square(img, 2, mx, my);
        let d: [i32; 64] = forward(r, g, b, ci);
        assert(call_ensures(*forward, (r, g, b, ci), d));
        assert(forward_of(*forward, img@, mx as int, my as int, ci as int, d@));
        let z: [i32; 64] = if ci == 0 {
            quantize(&d, &Q_LUMA, Ghost(ci as int))
        } else {
            quantize(&d, &Q_CHROMA, Ghost(ci as int))
        };
        assert(picture_block(*forward, img@, n as int, z@));
        blocks.push(z);
        n += 1;
    }
    let ghost seqs = block_seqs(blocks@);
    assert forall|k: int| 0 <= k < seqs.len() implies picture_block(
        *forward,
        img@,
        k,
        #[trigger] seqs[k],
    ) && block_ok(seqs[k]) by {
        assert(seqs[k] == blocks@[k]@);
    }
    let out: Vec<u8> = encode_blocks(w, h, &blocks);
    assert(out@ == stream(img@.width, img@.height, seqs));
    Ok(out)
}

} // verus!
