//! What is encoded is what is decoded: a file holds the quantized blocks that it was made of.
use vstd::arithmetic::power2;
use vstd::prelude::*;

use crate::color::Color;
use crate::image::Picture;
use crate::jpg::amplitude;
use crate::jpg::bits;
use crate::jpg::decode;
use crate::jpg::encode;
use crate::jpg::error::Error;
use crate::jpg::frame;
use crate::jpg::header;
use crate::jpg::header::{Component, HeaderView};
use crate::jpg::huffman;
use crate::jpg::reader;
use crate::jpg::scan;
use crate::jpg::scan::{FrameView, ScanState};
use crate::jpg::skipping;
use crate::jpg::writer;
use crate::jpg::zigzag;

verus! {

/// `part` stands at `p`.
spec fn stands<T>(all: Seq<T>, p: int, part: Seq<T>) -> bool {
    &&& 0 <= p
    &&& p + part.len() <= all.len()
    &&& all.subrange(p, p + part.len()) == part
}

/// Of two parts the first stands in front of the second.
proof fn lemma_stands(bs: Seq<bool>, p: int, a: Seq<bool>, b: Seq<bool>)
    requires
        stands(bs, p, a + b),
    ensures
        stands(bs, p, a),
        stands(bs, p + a.len(), b),
{
    let all = bs.subrange(p, p + a.len() + b.len());
    assert(bs.subrange(p, p + a.len()) =~= a) by {
        assert forall|i: int| 0 <= i < a.len() implies bs.subrange(p, p + a.len())[i] == a[i] by {
            assert(all[i] == (a + b)[i]);
        }
    }
    assert(bs.subrange(p + a.len(), p + a.len() + b.len()) =~= b) by {
        assert forall|i: int| 0 <= i < b.len() implies bs.subrange(
            p + a.len(),
            p + a.len() + b.len(),
        )[i] == b[i] by {
            assert(all[a.len() + i] == (a + b)[a.len() + i]);
        }
    }
}

/// A coefficient is read back.
proof fn lemma_read_coef(bs: Seq<bool>, p: int, v: int)
    requires
        encode::magnitude_below(v, 11),
        stands(bs, p, encode::coef_bits(v)),
    ensures
        scan::amplitude_at(bs, p, encode::size_of_coef(v) as int) == v,
        encode::coef_bits(v).len() == encode::size_of_coef(v),
{
    let n = encode::size_of_coef(v);
    encode::lemma_coef(v, 11);
    let code = amplitude::amplitude_code(v, n as int) as u32;
    assert forall|i: int| 0 <= i < n implies #[trigger] bs[p + i] == bits::nth_bit(
        code,
        n - 1 - i,
    ) by {
        assert(bs[p + i] == bs.subrange(p, p + n)[i]);
    }
    bits::lemma_value_of_low_bits(bs, p, code, n as int);
}

/// A size is read back.
proof fn lemma_read_dc(bs: Seq<bool>, p: int, s: u8)
    requires
        s < 12,
        stands(bs, p, encode::symbol_bits(encode::dc_codes(), s)),
    ensures
        huffman::symbol_at(encode::dc_codes(), bs, p) == Ok::<(u8, int), Error>(
            (s, p + encode::symbol_bits(encode::dc_codes(), s).len()),
        ),
{
    encode::lemma_dc_code();
    assert(encode::dc_symbol_seq()[s as int] == s);
    huffman::lemma_has_code(encode::dc_counts(), encode::dc_symbol_seq(), s as int);
    huffman::law_symbol_round_trip(encode::dc_counts(), encode::dc_symbol_seq(), s, bs, p);
}

/// A run and size, sixteen zeros, or the end of a block is read back.
proof fn lemma_read_ac(bs: Seq<bool>, p: int, s: u8)
    requires
        s == 0x00 || s == 0xF0 || 1 <= s % 16 <= 10,
        stands(bs, p, encode::symbol_bits(encode::ac_codes(), s)),
    ensures
        huffman::symbol_at(encode::ac_codes(), bs, p) == Ok::<(u8, int), Error>(
            (s, p + encode::symbol_bits(encode::ac_codes(), s).len()),
        ),
{
    encode::lemma_ac_code();
    let symbols = encode::ac_symbol_seq();
    let i: int = if s == 0x00 {
        0
    } else if s == 0xF0 {
        1
    } else {
        2 + (s / 16) * 10 + s % 16 - 1
    };
    assert(symbols[i] == s) by {
        if s != 0x00 && s != 0xF0 {
            assert((i - 2) / 10 == s / 16);
            assert((i - 2) % 10 == s % 16 - 1);
        }
    }
    huffman::lemma_has_code(encode::ac_counts(), symbols, i);
    huffman::law_symbol_round_trip(encode::ac_counts(), symbols, s, bs, p);
}

/// A block of which only the coefficients in front of place `k` are there.
spec fn partial(block: Seq<i32>, k: int) -> Seq<i32> {
    Seq::new(64, |n: int| if zigzag::PLACE@[n] < k { block[n] } else { 0i32 })
}

/// Runs of sixteen zeros are skipped.
proof fn lemma_read_zero_runs(bs: Seq<bool>, p: int, k: int, n: int, block: Seq<i32>)
    requires
        stands(bs, p, encode::zero_runs(n)),
        0 <= n,
        0 <= k,
        k + 16 * n < 64,
    ensures
        scan::ac_from(encode::ac_codes(), bs, p, k, block) == scan::ac_from(
            encode::ac_codes(),
            bs,
            p + encode::zero_runs(n).len(),
            k + 16 * n,
            block,
        ),
    decreases n,
{
    if n > 0 {
        let one = encode::symbol_bits(encode::ac_codes(), 0xF0);
        lemma_stands(bs, p, one, encode::zero_runs(n - 1));
        lemma_read_ac(bs, p, 0xF0);
        lemma_read_zero_runs(bs, p + one.len(), k + 16, n - 1, block);
    }
}

/// One more coefficient is there.
proof fn lemma_partial_next(block: Seq<i32>, k: int)
    requires
        block.len() == 64,
        0 <= k < 64,
    ensures
        zigzag::ZIGZAG@[k] < 64,
        partial(block, k)[zigzag::ZIGZAG@[k] as int] == 0,
        partial(block, k).update(
            zigzag::ZIGZAG@[k] as int,
            block[zigzag::ZIGZAG@[k] as int],
        ) == partial(block, k + 1),
{
    zigzag::law_zigzag_is_permutation();
    let z = zigzag::ZIGZAG@[k] as int;
    let next = partial(block, k).update(z, block[z]);
    assert forall|n: int| 0 <= n < 64 implies #[trigger] next[n] == partial(block, k + 1)[n] by {
        if n != z {
            assert(zigzag::PLACE@[n] != k);
        }
    }
    assert(next =~= partial(block, k + 1));
}

/// A coefficient behind `run` zeros is read back.
proof fn lemma_read_coded(bs: Seq<bool>, p: int, k: int, run: int, v: int, block: Seq<i32>)
    requires
        v != 0,
        encode::magnitude_below(v, 10),
        1 <= k - run,
        0 <= run,
        k < 64,
        stands(
            bs,
            p,
            encode::zero_runs(run / 16) + encode::symbol_bits(
                encode::ac_codes(),
                (run % 16 * 16 + encode::size_of_coef(v)) as u8,
            ) + encode::coef_bits(v),
        ),
    ensures
        scan::ac_from(encode::ac_codes(), bs, p, k - run, block) == scan::ac_from(
            encode::ac_codes(),
            bs,
            p + (encode::zero_runs(run / 16) + encode::symbol_bits(
                encode::ac_codes(),
                (run % 16 * 16 + encode::size_of_coef(v)) as u8,
            ) + encode::coef_bits(v)).len(),
            k + 1,
            block.update(zigzag::ZIGZAG@[k] as int, v as i32),
        ),
{
    let ac = encode::ac_codes();
    let size = encode::size_of_coef(v);
    power2::lemma2_to64();
    encode::lemma_coef(v, 10);
    let zeros = encode::zero_runs(run / 16);
    let rs = (run % 16 * 16 + size) as u8;
    let sym = encode::symbol_bits(ac, rs);
    let coef = encode::coef_bits(v);
    lemma_stands(bs, p, zeros + sym, coef);
    lemma_stands(bs, p, zeros, sym);
    lemma_read_zero_runs(bs, p, k - run, run / 16, block);
    let p1 = p + zeros.len();
    assert(rs / 16 == run % 16);
    assert(rs % 16 == size);
    lemma_read_ac(bs, p1, rs);
    lemma_read_coef(bs, p1 + sym.len(), v);
    let k1 = k - run + 16 * (run / 16);
    assert(k1 + rs / 16 == k);
}

/// The coefficients of a block behind the first are read back. The reader is at place `k - run`;
/// the `run` zeros up to place `k` have not been written yet.
proof fn lemma_read_ac_bits(bs: Seq<bool>, p: int, k: int, run: int, block: Seq<i32>)
    requires
        encode::block_ok(block),
        1 <= k - run,
        0 <= run,
        k <= 64,
        stands(bs, p, encode::ac_bits(block, k, run)),
    ensures
        scan::ac_from(encode::ac_codes(), bs, p, k - run, partial(block, k)) == Ok::<
            (Seq<i32>, int),
            Error,
        >((block, p + encode::ac_bits(block, k, run).len())),
    decreases 64 - k,
{
    if k == 64 {
        lemma_partial_all(block);
        if run > 0 {
            lemma_read_ac(bs, p, 0x00);
        }
    } else {
        lemma_partial_next(block, k);
        let z = zigzag::ZIGZAG@[k] as int;
        let v = block[z] as int;
        if v == 0 {
            assert(partial(block, k).update(z, 0) =~= partial(block, k));
            lemma_read_ac_bits(bs, p, k + 1, run + 1, block);
        } else {
            power2::lemma2_to64();
            assert(-encode::MAX_LEVEL <= block[z] <= encode::MAX_LEVEL);
            let head = encode::zero_runs(run / 16) + encode::symbol_bits(
                encode::ac_codes(),
                (run % 16 * 16 + encode::size_of_coef(v)) as u8,
            ) + encode::coef_bits(v);
            let rest = encode::ac_bits(block, k + 1, 0);
            lemma_stands(bs, p, head, rest);
            lemma_read_coded(bs, p, k, run, v, partial(block, k));
            lemma_read_ac_bits(bs, p + head.len(), k + 1, 0, block);
        }
    }
}

/// All coefficients are in front of place 64.
proof fn lemma_partial_all(block: Seq<i32>)
    requires
        block.len() == 64,
    ensures
        partial(block, 64) == block,
{
    zigzag::law_zigzag_is_permutation();
    assert(partial(block, 64) =~= block);
}

/// A block is read back.
proof fn lemma_read_block(bs: Seq<bool>, p: int, pred: int, block: Seq<i32>)
    requires
        encode::block_ok(block),
        -encode::MAX_LEVEL <= pred <= encode::MAX_LEVEL,
        stands(bs, p, encode::block_bits(pred, block)),
    ensures
        scan::block_at(encode::dc_codes(), encode::ac_codes(), bs, p, pred) == Some(
            Ok::<(Seq<i32>, int), Error>((block, p + encode::block_bits(pred, block).len())),
        ),
{
    power2::lemma2_to64();
    assert(-encode::MAX_LEVEL <= block[0] <= encode::MAX_LEVEL);
    let diff = block[0] - pred;
    encode::lemma_coef(diff, 11);
    let s = encode::size_of_coef(diff) as u8;
    let sym = encode::symbol_bits(encode::dc_codes(), s);
    let coef = encode::coef_bits(diff);
    let rest = encode::ac_bits(block, 1, 0);
    lemma_stands(bs, p, sym + coef, rest);
    lemma_stands(bs, p, sym, coef);
    lemma_read_dc(bs, p, s);
    lemma_read_coef(bs, p + sym.len(), diff);
    zigzag::law_zigzag_is_permutation();
    assert(scan::flat_block(block[0]) =~= partial(block, 1)) by {
        assert(zigzag::PLACE@[0] == 0);
        assert forall|n: int| 0 <= n < 64 implies scan::flat_block(block[0])[n] == partial(
            block,
            1,
        )[n] by {
            if n != 0 {
                assert(zigzag::ZIGZAG@[0] == 0);
                assert(zigzag::PLACE@[n] != 0);
            }
        }
    }
    lemma_read_ac_bits(bs, p + sym.len() + coef.len(), 1, 0, block);
}

/// The components that every encoded file has.
pub open spec fn coded_comps() -> Seq<Component> {
    seq![
        Component { id: 1, hs: 1, vs: 1, tq: 0, dc: 0, ac: 0 },
        Component { id: 2, hs: 1, vs: 1, tq: 1, dc: 1, ac: 1 },
        Component { id: 3, hs: 1, vs: 1, tq: 1, dc: 1, ac: 1 },
    ]
}

/// The quantization tables that every encoded file has.
pub open spec fn coded_quant() -> Seq<Seq<u16>> {
    header::blank().quant.update(0, encode::Q_LUMA@).update(1, encode::Q_CHROMA@)
}

/// Two tables with the same code.
spec fn twice(codes: Seq<(u16, u8, u8)>) -> Seq<Option<Seq<(u16, u8, u8)>>> {
    header::blank().dc.update(0, Some(codes)).update(1, Some(codes))
}

/// The header of an encoded file.
spec fn coded_header(w: int, h: int) -> HeaderView {
    HeaderView {
        width: w,
        height: h,
        comps: coded_comps(),
        quant: coded_quant(),
        dc: twice(encode::dc_codes()),
        ac: twice(encode::ac_codes()),
    }
}

/// How far a scan of `blocks` has been read after `j` units and the blocks of the components in
/// front of `ci`.
spec fn progress(blocks: Seq<Seq<i32>>, j: int, ci: int) -> ScanState {
    ScanState {
        p: encode::blocks_bits(blocks, 3 * j + ci).len() as int,
        preds: Seq::new(3, |c: int| encode::pred_of(blocks, 3 * units_read(j, ci, c) + c)),
        blocks: Seq::new(
            3,
            |c: int| Seq::new(units_read(j, ci, c) as nat, |i: int| blocks[3 * i + c]),
        ),
    }
}

spec fn units_read(j: int, ci: int, c: int) -> int {
    if c < ci {
        j + 1
    } else {
        j
    }
}

/// Fewer blocks stand where more do.
proof fn lemma_stands_blocks(bs: Seq<bool>, blocks: Seq<Seq<i32>>, n: int, m: int)
    requires
        0 <= n <= m,
        stands(bs, 0, encode::blocks_bits(blocks, m)),
    ensures
        stands(bs, 0, encode::blocks_bits(blocks, n)),
    decreases m - n,
{
    if n < m {
        lemma_stands(
            bs,
            0,
            encode::blocks_bits(blocks, m - 1),
            encode::block_bits(encode::pred_of(blocks, m - 1), blocks[m - 1]),
        );
        lemma_stands_blocks(bs, blocks, n, m - 1);
    }
}

/// The block of one component in a unit is read back.
proof fn lemma_read_one(bs: Seq<bool>, blocks: Seq<Seq<i32>>, j: int, ci: int)
    requires
        encode::blocks_ok(blocks),
        0 <= j,
        0 <= ci < 3,
        3 * j + ci < blocks.len(),
        stands(bs, 0, encode::blocks_bits(blocks, blocks.len() as int)),
    ensures
        scan::blocks_from(
            coded_comps()[ci],
            encode::dc_codes(),
            encode::ac_codes(),
            bs,
            progress(blocks, j, ci),
            ci,
            1,
        ) == Some(Ok::<ScanState, Error>(progress(blocks, j, ci + 1))),
{
    let n = 3 * j + ci;
    let s = progress(blocks, j, ci);
    let t = progress(blocks, j, ci + 1);
    let block = blocks[n];
    let pred = encode::pred_of(blocks, n);
    assert(encode::block_ok(block));
    if n >= 3 {
        assert(encode::block_ok(blocks[n - 3]));
        assert(-encode::MAX_LEVEL <= blocks[n - 3][0] <= encode::MAX_LEVEL);
    }
    lemma_stands_blocks(bs, blocks, n + 1, blocks.len() as int);
    lemma_stands(
        bs,
        0,
        encode::blocks_bits(blocks, n),
        encode::block_bits(pred, block),
    );
    lemma_read_block(bs, s.p, pred, block);
    assert(s.preds[ci] == pred);
    let next = ScanState {
        p: s.p + encode::block_bits(pred, block).len(),
        preds: s.preds.update(ci, block[0] as int),
        blocks: s.blocks.update(ci, s.blocks[ci].push(block)),
    };
    assert(next.preds =~= t.preds);
    assert forall|c: int| 0 <= c < 3 implies next.blocks[c] == t.blocks[c] by {
        assert(next.blocks[c] =~= t.blocks[c]);
    }
    assert(next.blocks =~= t.blocks);
    assert(next == t);
    reveal_with_fuel(scan::blocks_from, 2);
}

/// In a unit the component behind the one that was read comes next.
proof fn lemma_next_component(
    bs: Seq<bool>,
    w: int,
    h: int,
    blocks: Seq<Seq<i32>>,
    j: int,
    ci: int,
)
    requires
        encode::blocks_ok(blocks),
        0 <= j,
        0 <= ci < 3,
        3 * j + 3 <= blocks.len(),
        stands(bs, 0, encode::blocks_bits(blocks, blocks.len() as int)),
    ensures
        scan::unit_from(coded_header(w, h), bs, progress(blocks, j, ci), ci) == scan::unit_from(
            coded_header(w, h),
            bs,
            progress(blocks, j, ci + 1),
            ci + 1,
        ),
{
    let hd = coded_header(w, h);
    let c = hd.comps[ci];
    assert(c.hs * c.vs == 1) by (nonlinear_arith)
        requires
            c.hs == 1,
            c.vs == 1,
    ;
    assert(hd.dc[c.dc as int] == Some(encode::dc_codes()));
    assert(hd.ac[c.ac as int] == Some(encode::ac_codes()));
    lemma_read_one(bs, blocks, j, ci);
}

/// Behind the last component of a unit the next unit begins.
proof fn lemma_next_unit(blocks: Seq<Seq<i32>>, j: int)
    requires
        0 <= j,
        3 * j + 3 <= blocks.len(),
    ensures
        progress(blocks, j, 3) == progress(blocks, j + 1, 0),
{
    let a = progress(blocks, j, 3);
    let b = progress(blocks, j + 1, 0);
    assert(a.preds =~= b.preds);
    assert forall|c: int| 0 <= c < 3 implies a.blocks[c] == b.blocks[c] by {
        assert(a.blocks[c] =~= b.blocks[c]);
    }
    assert(a.blocks =~= b.blocks);
}

/// A unit is read back.
proof fn lemma_read_unit(bs: Seq<bool>, w: int, h: int, blocks: Seq<Seq<i32>>, j: int)
    requires
        encode::blocks_ok(blocks),
        0 <= j,
        3 * j + 3 <= blocks.len(),
        stands(bs, 0, encode::blocks_bits(blocks, blocks.len() as int)),
    ensures
        scan::unit_from(coded_header(w, h), bs, progress(blocks, j, 0), 0) == Some(
            Ok::<ScanState, Error>(progress(blocks, j + 1, 0)),
        ),
{
    lemma_next_component(bs, w, h, blocks, j, 0);
    lemma_next_component(bs, w, h, blocks, j, 1);
    lemma_next_component(bs, w, h, blocks, j, 2);
    lemma_next_unit(blocks, j);
    assert(coded_header(w, h).comps.len() == 3);
}

/// All units are read back.
proof fn lemma_read_units(bs: Seq<bool>, w: int, h: int, blocks: Seq<Seq<i32>>, j: int, m: int)
    requires
        encode::blocks_ok(blocks),
        0 <= j,
        0 <= m,
        3 * (j + m) == blocks.len(),
        stands(bs, 0, encode::blocks_bits(blocks, blocks.len() as int)),
    ensures
        scan::units_from(coded_header(w, h), bs, progress(blocks, j, 0), m) == Some(
            Ok::<ScanState, Error>(progress(blocks, j + m, 0)),
        ),
    decreases m,
{
    if m > 0 {
        lemma_read_unit(bs, w, h, blocks, j);
        lemma_read_units(bs, w, h, blocks, j + 1, m - 1);
    }
}

/// A segment that stands at `i` is taken in, and reading goes on behind it.
proof fn lemma_segment_step(
    data: Seq<u8>,
    i: int,
    m: u8,
    body: Seq<u8>,
    h: HeaderView,
    next: HeaderView,
)
    requires
        body.len() + 2 <= 0xFFFF,
        stands(data, i, skipping::whole_segment(m, body)),
        m != 0xD9,
        m != 0xDA,
        header::segment(h, m, body) == Some(Ok::<HeaderView, Error>(next)),
    ensures
        header::segments_from(data, i, h) == header::segments_from(data, i + 4 + body.len(), next),
{
    let seg = data.subrange(i, i + 4 + body.len());
    assert(data[i] == seg[0]);
    assert(data[i + 1] == seg[1]);
    assert(data[i + 2] == seg[2]);
    assert(data[i + 3] == seg[3]);
    assert(header::be16_at(data, i + 2) == 2 + body.len());
    assert(data.subrange(i + 4, i + 4 + body.len()) =~= body) by {
        assert forall|k: int| 0 <= k < body.len() implies data.subrange(
            i + 4,
            i + 4 + body.len(),
        )[k] == body[k] by {
            assert(seg[4 + k] == body[k]);
        }
    }
}

/// The body of the segment with the quantization tables.
spec fn quant_body() -> Seq<u8> {
    seq![0x00u8] + encode::table_bytes(encode::Q_LUMA@) + seq![0x01u8] + encode::table_bytes(
        encode::Q_CHROMA@,
    )
}

/// A table comes back from its zigzag order.
proof fn lemma_table(body: Seq<u8>, k: int, ci: int)
    requires
        0 <= k,
        k + 64 <= body.len(),
        body.subrange(k, k + 64) == encode::table_bytes(encode::table_of(ci)),
    ensures
        header::quant_bytes(body, k) == encode::table_of(ci),
{
    zigzag::law_zigzag_is_permutation();
    encode::lemma_steps(ci);
    let table = encode::table_of(ci);
    assert forall|n: int| 0 <= n < 64 implies header::quant_bytes(body, k)[n] == table[n] by {
        let j = zigzag::PLACE@[n] as int;
        assert(body[k + j] == body.subrange(k, k + 64)[j]);
        assert(10 <= table[n] <= 121);
    }
    assert(header::quant_bytes(body, k) =~= table);
}

/// The quantization tables are taken in.
proof fn lemma_quant(h: HeaderView)
    requires
        h.quant == header::blank().quant,
    ensures
        header::segment(h, 0xDB, quant_body()) == Some(
            Ok::<HeaderView, Error>(HeaderView { quant: coded_quant(), ..h }),
        ),
{
    let body = quant_body();
    assert(body.subrange(1, 65) =~= encode::table_bytes(encode::table_of(0)));
    assert(body.subrange(66, 130) =~= encode::table_bytes(encode::table_of(1)));
    lemma_table(body, 1, 0);
    lemma_table(body, 66, 1);
    assert(body[0] == 0x00 && body[65] == 0x01);
    let q0 = h.quant;
    let q1 = q0.update(0, encode::Q_LUMA@);
    let q2 = q1.update(1, encode::Q_CHROMA@);
    assert(header::quant_after(body, 130, q2) == Ok::<Seq<Seq<u16>>, Error>(q2));
    assert(header::quant_after(body, 65, q1) == header::quant_after(body, 130, q2));
    assert(header::quant_after(body, 0, q0) == header::quant_after(body, 65, q1));
}

/// The body of a frame header.
spec fn frame_body(w: int, h: int) -> Seq<u8> {
    seq![0x08u8] + encode::be16_bytes(h) + encode::be16_bytes(w) + seq![
        0x03u8, 0x01, 0x11, 0x00, 0x02, 0x11, 0x01, 0x03, 0x11, 0x01,
    ]
}

/// Components before the scan header.
spec fn fresh_comps() -> Seq<Component> {
    seq![
        Component { id: 1, hs: 1, vs: 1, tq: 0, dc: 0, ac: 0 },
        Component { id: 2, hs: 1, vs: 1, tq: 1, dc: 0, ac: 0 },
        Component { id: 3, hs: 1, vs: 1, tq: 1, dc: 0, ac: 0 },
    ]
}

/// The frame header is taken in.
proof fn lemma_frame(hd: HeaderView, w: int, h: int)
    requires
        0 <= w <= 0xFFFF,
        0 <= h <= 0xFFFF,
    ensures
        header::segment(hd, 0xC0, frame_body(w, h)) == Some(
            Ok::<HeaderView, Error>(
                HeaderView { width: w, height: h, comps: fresh_comps(), ..hd },
            ),
        ),
{
    let body = frame_body(w, h);
    assert(body.len() == 15);
    assert(body[5] == 3);
    assert(header::be16_at(body, 1) == h);
    assert(header::be16_at(body, 3) == w);
    assert(header::frame_comps(body) =~= fresh_comps());
}

/// The body of a segment with one Huffman table.
spec fn huffman_body(info: u8, counts: Seq<u8>, symbols: Seq<u8>) -> Seq<u8> {
    seq![info] + counts + symbols
}

/// A Huffman table is taken in.
proof fn lemma_huffman(h: HeaderView, info: u8, counts: Seq<u8>, symbols: Seq<u8>)
    requires
        counts.len() == 16,
        huffman::codes_defined(counts),
        huffman::symbols_before(counts, 16) == symbols.len(),
    ensures
        header::segment(h, 0xC4, huffman_body(info, counts, symbols)) == Some(
            Ok::<HeaderView, Error>(
                if info / 16 == 0 {
                    HeaderView {
                        dc: h.dc.update(
                            (info % 4) as int,
                            Some(huffman::canonical_codes(counts, symbols)),
                        ),
                        ..h
                    }
                } else {
                    HeaderView {
                        ac: h.ac.update(
                            (info % 4) as int,
                            Some(huffman::canonical_codes(counts, symbols)),
                        ),
                        ..h
                    }
                },
            ),
        ),
{
    let body = huffman_body(info, counts, symbols);
    let n = symbols.len() as int;
    assert(body.subrange(1, 17) =~= counts);
    assert(body.subrange(17, 17 + n) =~= symbols);
    assert(body[0] == info);
    assert(body.len() == 17 + n);
    let codes = Some(huffman::canonical_codes(counts, symbols));
    let slot = (info % 4) as int;
    reveal_with_fuel(header::huffman_after, 2);
    if info / 16 == 0 {
        assert(header::huffman_after(body, 0, h.dc, h.ac) == header::huffman_after(
            body,
            17 + n,
            h.dc.update(slot, codes),
            h.ac,
        ));
    } else {
        assert(header::huffman_after(body, 0, h.dc, h.ac) == header::huffman_after(
            body,
            17 + n,
            h.dc,
            h.ac.update(slot, codes),
        ));
    }
}

/// The body of the JFIF segment.
spec fn jfif_body() -> Seq<u8> {
    seq![0x4Au8, 0x46, 0x49, 0x46, 0x00, 0x01, 0x01, 0x00, 0x00, 0x01, 0x00, 0x01, 0x00, 0x00]
}

/// Where the segments of an encoded file stand.
proof fn lemma_layout(w: int, h: int, t: Seq<u8>)
    ensures
        ({
            let data = encode::header_bytes(w, h) + t;
            &&& encode::header_bytes(w, h).len() == 619
            &&& data[0] == 0xFF && data[1] == 0xD8
            &&& stands(data, 2, skipping::whole_segment(0xE0, jfif_body()))
            &&& stands(data, 20, skipping::whole_segment(0xDB, quant_body()))
            &&& stands(data, 154, skipping::whole_segment(0xC0, frame_body(w, h)))
            &&& stands(
                data,
                173,
                skipping::whole_segment(
                    0xC4,
                    huffman_body(0x00, encode::dc_counts(), encode::dc_symbol_seq()),
                ),
            )
            &&& stands(
                data,
                206,
                skipping::whole_segment(
                    0xC4,
                    huffman_body(0x10, encode::ac_counts(), encode::ac_symbol_seq()),
                ),
            )
            &&& stands(
                data,
                389,
                skipping::whole_segment(
                    0xC4,
                    huffman_body(0x01, encode::dc_counts(), encode::dc_symbol_seq()),
                ),
            )
            &&& stands(
                data,
                422,
                skipping::whole_segment(
                    0xC4,
                    huffman_body(0x11, encode::ac_counts(), encode::ac_symbol_seq()),
                ),
            )
            &&& stands(data, 605, encode::scan_segment())
        }),
{
    let data = encode::header_bytes(w, h) + t;
    let s1 = skipping::whole_segment(0xE0, jfif_body());
    let s2 = skipping::whole_segment(0xDB, quant_body());
    let s3 = skipping::whole_segment(0xC0, frame_body(w, h));
    let s4 = skipping::whole_segment(
        0xC4,
        huffman_body(0x00, encode::dc_counts(), encode::dc_symbol_seq()),
    );
    let s5 = skipping::whole_segment(
        0xC4,
        huffman_body(0x10, encode::ac_counts(), encode::ac_symbol_seq()),
    );
    let s6 = skipping::whole_segment(
        0xC4,
        huffman_body(0x01, encode::dc_counts(), encode::dc_symbol_seq()),
    );
    let s7 = skipping::whole_segment(
        0xC4,
        huffman_body(0x11, encode::ac_counts(), encode::ac_symbol_seq()),
    );
    let s8 = encode::scan_segment();
    assert(encode::intro_bytes() =~= seq![0xFFu8, 0xD8] + s1);
    assert(encode::quant_segment() =~= s2);
    assert(encode::frame_segment(w, h) =~= s3);
    assert(encode::huffman_segment(0x00, encode::dc_counts(), encode::dc_symbol_seq()) =~= s4);
    assert(encode::huffman_segment(0x10, encode::ac_counts(), encode::ac_symbol_seq()) =~= s5);
    assert(encode::huffman_segment(0x01, encode::dc_counts(), encode::dc_symbol_seq()) =~= s6);
    assert(encode::huffman_segment(0x11, encode::ac_counts(), encode::ac_symbol_seq()) =~= s7);
    lemma_concat(seq![0xFFu8, 0xD8], s1, s2, s3, s4, s5, s6, s7, s8, t, data);
}

/// Parts put one behind the other stand where the lengths in front add up to.
proof fn lemma_concat(
    s0: Seq<u8>,
    s1: Seq<u8>,
    s2: Seq<u8>,
    s3: Seq<u8>,
    s4: Seq<u8>,
    s5: Seq<u8>,
    s6: Seq<u8>,
    s7: Seq<u8>,
    s8: Seq<u8>,
    t: Seq<u8>,
    data: Seq<u8>,
)
    requires
        s0.len() == 2,
        s1.len() == 18,
        s2.len() == 134,
        s3.len() == 19,
        s4.len() == 33,
        s5.len() == 183,
        s6.len() == 33,
        s7.len() == 183,
        s8.len() == 14,
        data == (s0 + s1) + s2 + s3 + (s4 + s5 + s6 + s7) + s8 + t,
    ensures
        data[0] == s0[0],
        data[1] == s0[1],
        stands(data, 2, s1),
        stands(data, 20, s2),
        stands(data, 154, s3),
        stands(data, 173, s4),
        stands(data, 206, s5),
        stands(data, 389, s6),
        stands(data, 422, s7),
        stands(data, 605, s8),
{
    assert(data.subrange(2, 20) =~= s1);
    assert(data.subrange(20, 154) =~= s2);
    assert(data.subrange(154, 173) =~= s3);
    assert(data.subrange(173, 206) =~= s4);
    assert(data.subrange(206, 389) =~= s5);
    assert(data.subrange(389, 422) =~= s6);
    assert(data.subrange(422, 605) =~= s7);
    assert(data.subrange(605, 619) =~= s8);
}

/// The scan header is taken in.
proof fn lemma_scan_header(data: Seq<u8>, hd: HeaderView)
    requires
        stands(data, 605, encode::scan_segment()),
        hd.comps == fresh_comps(),
    ensures
        header::segments_from(data, 605, hd) == Some(
            Ok::<(HeaderView, int), Error>((HeaderView { comps: coded_comps(), ..hd }, 619)),
        ),
{
    let seg = data.subrange(605, 619);
    assert(data[605] == seg[0]);
    assert(data[606] == seg[1]);
    assert(data[607] == seg[2]);
    assert(data[608] == seg[3]);
    assert(data[609] == seg[4]);
    assert(data[610] == seg[5]);
    assert(data[611] == seg[6]);
    assert(data[612] == seg[7]);
    assert(data[613] == seg[8]);
    assert(data[614] == seg[9]);
    assert(data[615] == seg[10]);
    let c0 = fresh_comps();
    let c1 = header::with_selector(c0, 0x01, 0x00);
    let c2 = header::with_selector(c1, 0x02, 0x11);
    let c3 = header::with_selector(c2, 0x03, 0x11);
    assert(c1 =~= c0);
    assert(c3 =~= coded_comps());
    assert(header::with_selectors(c0, data, 610, 0) == c0);
    assert(header::with_selectors(c0, data, 610, 1) == c1);
    assert(header::with_selectors(c0, data, 610, 2) == c2);
    assert(header::with_selectors(c0, data, 610, 3) == c3);
}

/// The header of an encoded file once its tables and its frame header have been read.
spec fn tables_read(w: int, h: int) -> HeaderView {
    HeaderView { comps: fresh_comps(), ..coded_header(w, h) }
}

/// The header of an encoded file up to the frame header.
spec fn frame_read(w: int, h: int) -> HeaderView {
    HeaderView { dc: header::blank().dc, ac: header::blank().ac, ..tables_read(w, h) }
}

proof fn lemma_header_front(w: int, h: int, data: Seq<u8>)
    requires
        0 <= w <= 0xFFFF,
        0 <= h <= 0xFFFF,
        stands(data, 2, skipping::whole_segment(0xE0, jfif_body())),
        stands(data, 20, skipping::whole_segment(0xDB, quant_body())),
        stands(data, 154, skipping::whole_segment(0xC0, frame_body(w, h))),
    ensures
        header::segments_from(data, 2, header::blank()) == header::segments_from(
            data,
            173,
            frame_read(w, h),
        ),
{
    let h1 = header::blank();
    assert(header::segments_from(data, 2, h1) == header::segments_from(data, 20, h1)) by {
        lemma_segment_step(data, 2, 0xE0, jfif_body(), h1, h1);
    }
    let h2 = HeaderView { quant: coded_quant(), ..h1 };
    assert(header::segments_from(data, 20, h1) == header::segments_from(data, 154, h2)) by {
        lemma_quant(h1);
        lemma_segment_step(data, 20, 0xDB, quant_body(), h1, h2);
    }
    assert(header::segments_from(data, 154, h2) == header::segments_from(
        data,
        173,
        frame_read(w, h),
    )) by {
        lemma_frame(h2, w, h);
        lemma_segment_step(data, 154, 0xC0, frame_body(w, h), h2, frame_read(w, h));
    }
}

/// One Huffman table for first coefficients is taken in.
proof fn lemma_dc_segment(data: Seq<u8>, i: int, slot: u8, h: HeaderView)
    requires
        slot < 2,
        stands(
            data,
            i,
            skipping::whole_segment(
                0xC4,
                huffman_body(slot, encode::dc_counts(), encode::dc_symbol_seq()),
            ),
        ),
    ensures
        header::segments_from(data, i, h) == header::segments_from(
            data,
            i + 33,
            HeaderView { dc: h.dc.update(slot as int, Some(encode::dc_codes())), ..h },
        ),
{
    let counts = encode::dc_counts();
    let symbols = encode::dc_symbol_seq();
    encode::lemma_dc_code();
    lemma_huffman(h, slot, counts, symbols);
    lemma_segment_step(
        data,
        i,
        0xC4,
        huffman_body(slot, counts, symbols),
        h,
        HeaderView { dc: h.dc.update(slot as int, Some(encode::dc_codes())), ..h },
    );
}

/// One Huffman table for other coefficients is taken in.
proof fn lemma_ac_segment(data: Seq<u8>, i: int, slot: u8, h: HeaderView)
    requires
        slot < 2,
        stands(
            data,
            i,
            skipping::whole_segment(
                0xC4,
                huffman_body(
                    (0x10 + slot) as u8,
                    encode::ac_counts(),
                    encode::ac_symbol_seq(),
                ),
            ),
        ),
    ensures
        header::segments_from(data, i, h) == header::segments_from(
            data,
            i + 183,
            HeaderView { ac: h.ac.update(slot as int, Some(encode::ac_codes())), ..h },
        ),
{
    let counts = encode::ac_counts();
    let symbols = encode::ac_symbol_seq();
    let info = (0x10 + slot) as u8;
    encode::lemma_ac_code();
    lemma_huffman(h, info, counts, symbols);
    lemma_segment_step(
        data,
        i,
        0xC4,
        huffman_body(info, counts, symbols),
        h,
        HeaderView { ac: h.ac.update(slot as int, Some(encode::ac_codes())), ..h },
    );
}

/// The header of an encoded file is read back.
proof fn lemma_header(w: int, h: int, t: Seq<u8>)
    requires
        0 <= w <= 0xFFFF,
        0 <= h <= 0xFFFF,
    ensures
        header::header_of(encode::header_bytes(w, h) + t) == Some(
            Ok::<(HeaderView, int), Error>((coded_header(w, h), 619)),
        ),
{
    let data = encode::header_bytes(w, h) + t;
    lemma_layout(w, h, t);
    lemma_header_front(w, h, data);
    let h3 = frame_read(w, h);
    lemma_dc_segment(data, 173, 0, h3);
    let h4 = HeaderView { dc: h3.dc.update(0, Some(encode::dc_codes())), ..h3 };
    lemma_ac_segment(data, 206, 0, h4);
    let h5 = HeaderView { ac: h4.ac.update(0, Some(encode::ac_codes())), ..h4 };
    lemma_dc_segment(data, 389, 1, h5);
    let h6 = HeaderView { dc: h5.dc.update(1, Some(encode::dc_codes())), ..h5 };
    lemma_ac_segment(data, 422, 1, h6);
    let h7 = HeaderView { ac: h6.ac.update(1, Some(encode::ac_codes())), ..h6 };
    assert(h7 == tables_read(w, h));
    lemma_scan_header(data, h7);
}

/// The frame that an encoded file holds.
pub open spec fn coded_frame(w: int, h: int, blocks: Seq<Seq<i32>>) -> FrameView {
    FrameView {
        width: w,
        height: h,
        comps: coded_comps(),
        quant: coded_quant(),
        across: scan::pieces(w, 8),
        down: scan::pieces(h, 8),
        blocks: Seq::new(
            3,
            |c: int|
                Seq::new(
                    (scan::pieces(w, 8) * scan::pieces(h, 8)) as nat,
                    |j: int| blocks[3 * j + c],
                ),
        ),
    }
}

/// A file that was made of quantized blocks reads as those blocks, with the size and the
/// quantization tables that they were written with.
pub proof fn law_stream_round_trip(w: int, h: int, blocks: Seq<Seq<i32>>)
    requires
        1 <= w <= encode::MAX_SIDE,
        1 <= h <= encode::MAX_SIDE,
        blocks.len() == scan::pieces(w, 8) * scan::pieces(h, 8) * 3,
        encode::blocks_ok(blocks),
    ensures
        scan::frame_of(encode::stream(w, h, blocks)) == Some(
            Ok::<FrameView, Error>(coded_frame(w, h, blocks)),
        ),
{
    let data = encode::stream(w, h, blocks);
    let all = encode::blocks_bits(blocks, blocks.len() as int);
    let coded = writer::entropy_coded(all);
    let end = encode::end_bytes();
    assert(data =~= encode::header_bytes(w, h) + (coded + end));
    lemma_header(w, h, coded + end);
    lemma_layout(w, h, coded + end);
    let hd = coded_header(w, h);
    scan::lemma_pieces(w, 8);
    scan::lemma_pieces(h, 8);
    let a = scan::pieces(w, 8);
    let d = scan::pieces(h, 8);
    assert(scan::max_hs(hd.comps) == 1 && scan::max_vs(hd.comps) == 1) by {
        reveal_with_fuel(scan::max_hs, 4);
        reveal_with_fuel(scan::max_vs, 4);
    }
    assert forall|i: int| 0 <= i < hd.comps.len() implies scan::plane_size(
        a,
        d,
        #[trigger] hd.comps[i],
    ) <= u32::MAX by {
        let c = hd.comps[i];
        assert((a * c.hs * 8) * (d * c.vs * 8) <= u32::MAX) by (nonlinear_arith)
            requires
                c.hs == 1,
                c.vs == 1,
                0 <= a * 8 < 65508,
                0 <= d * 8 < 65508,
        ;
    }
    assert(data.subrange(619, data.len() as int) =~= coded + end);
    let bs = scan::scan_bits(data, 619);
    assert(end[0] == 0xFF && end[1] == 0xD9);
    writer::law_entropy_round_trip(all, end);
    assert(stands(bs, 0, all)) by {
        assert(bs.subrange(0, all.len() as int) =~= all);
    }
    let m = a * d;
    lemma_read_units(bs, w, h, blocks, 0, m);
    let start = scan::scan_start(3);
    let first = progress(blocks, 0, 0);
    assert(first.preds =~= start.preds);
    assert forall|c: int| 0 <= c < 3 implies first.blocks[c] == start.blocks[c] by {
        assert(first.blocks[c] =~= start.blocks[c]);
    }
    assert(first.blocks =~= start.blocks);
    assert(first == start);
    let last = progress(blocks, m, 0).blocks;
    let wanted = coded_frame(w, h, blocks).blocks;
    assert forall|c: int| 0 <= c < 3 implies last[c] == wanted[c] by {
        assert(last[c] =~= wanted[c]);
    }
    assert(last =~= wanted);
}

/// The planes of an encoded file have a sample for each pixel, in whole squares.
proof fn lemma_planes(w: int, h: int, blocks: Seq<Seq<i32>>, ci: int)
    requires
        0 <= ci < 3,
    ensures
        coded_frame(w, h, blocks).comps[ci].hs == 1,
        coded_frame(w, h, blocks).comps[ci].vs == 1,
        frame::plane_width(coded_frame(w, h, blocks), ci) == scan::pieces(w, 8) * 8,
        frame::plane_height(coded_frame(w, h, blocks), ci) == scan::pieces(h, 8) * 8,
{
    let c = coded_comps()[ci];
    let a = scan::pieces(w, 8);
    let d = scan::pieces(h, 8);
    assert(a * c.hs == a && d * c.vs == d) by (nonlinear_arith)
        requires
            c.hs == 1,
            c.vs == 1,
    ;
}

/// Where a place in a row of `n` falls when the row is stretched to whole squares.
pub open spec fn stretched(x: int, n: int) -> int {
    x * (scan::pieces(n, 8) * 8) / n
}

/// A row of whole squares is not stretched. In any other row just those places stay that are left
/// of where the stretching amounts to one.
pub proof fn law_stretched(x: int, n: int)
    requires
        0 <= x < n <= 0xFFFF,
    ensures
        0 <= stretched(x, n) < scan::pieces(n, 8) * 8,
        n % 8 == 0 ==> stretched(x, n) == x,
        stretched(x, n) == x <==> x * (scan::pieces(n, 8) * 8 - n) < n,
{
    scan::lemma_pieces(n, 8);
    let m = scan::pieces(n, 8) * 8;
    let y = x * m;
    let q = y / n;
    let r = y % n;
    vstd::arithmetic::div_mod::lemma_fundamental_div_mod(y, n);
    vstd::arithmetic::div_mod::lemma_mod_bound(y, n);
    assert(0 <= q < m) by (nonlinear_arith)
        requires
            y == x * m,
            y == n * q + r,
            0 <= r < n,
            0 <= x < n,
            0 < m,
    ;
    if n % 8 == 0 {
        assert(m == n);
        assert(x * (m - n) == 0) by (nonlinear_arith)
            requires
                m == n,
        ;
    }
    assert(x * (m - n) == n * (q - x) + r) by (nonlinear_arith)
        requires
            x * m == n * q + r,
    ;
    if q == x {
        assert(n * (q - x) == 0) by (nonlinear_arith)
            requires
                q == x,
        ;
    } else {
        assert(0 <= x * (m - n)) by (nonlinear_arith)
            requires
                0 <= x,
                n <= m,
        ;
        assert(n * (q - x) >= n || n * (q - x) <= -n) by (nonlinear_arith)
            requires
                q != x,
                n > 0,
        ;
    }
}

/// A pixel shows the sample at the place that its own place is stretched to.
proof fn lemma_shown_place(
    w: int,
    h: int,
    blocks: Seq<Seq<i32>>,
    samples: Seq<Seq<[u8; 64]>>,
    ci: int,
    x: int,
    y: int,
)
    requires
        0 <= ci < 3,
    ensures
        ({
            let sx = stretched(x, w);
            let sy = stretched(y, h);
            frame::shown_at(coded_frame(w, h, blocks), samples, ci, x, y) == samples[ci][(sy / 8)
                * scan::pieces(w, 8) + sx / 8]@[(sy % 8) * 8 + sx % 8]
        }),
{
    let f = coded_frame(w, h, blocks);
    lemma_planes(w, h, blocks, ci);
    let c = f.comps[ci];
    let sx = stretched(x, w);
    let sy = stretched(y, h);
    let mx = sx / 8;
    let my = sy / 8;
    let unit = my * f.across + mx;
    assert(my / 1 == my && mx / 1 == mx && my % 1 == 0 && mx % 1 == 0);
    assert(unit * (c.hs * c.vs) + (my % 1) * c.hs + mx % 1 == unit) by (nonlinear_arith)
        requires
            c.hs == 1,
            c.vs == 1,
            my % 1 == 0,
            mx % 1 == 0,
    ;
    assert(frame::block_index(f.across, c, sx, sy) == unit);
}

/// A file that was made of a picture decodes, unless the picture has more channels than can be
/// counted with 32 bits, and shows a picture of the same size.
pub proof fn law_image_round_trip<
    E: Fn([u8; 64], [u8; 64], [u8; 64], usize) -> [i32; 64],
    F: Fn([i32; 64], [u16; 64]) -> [u8; 64],
    G: Fn(u8, u8, u8) -> (u8, u8, u8),
>(forward: E, idct: F, to_rgb: G, p: Picture, out: Seq<u8>, q: Picture)
    requires
        encode::encodable(p),
        encode::encodes_to(forward, p, out),
    ensures
        decode::decodable(out) <==> p.width * p.height * 3 <= u32::MAX,
        scan::frame_of(out) matches Some(Ok(_)),
        decode::depicts(out, idct, to_rgb, q) ==> q.width == p.width && q.height == p.height,
{
    let blocks = choose|blocks: Seq<Seq<i32>>|
        {
            &&& encode::picture_blocks(forward, p, blocks)
            &&& encode::blocks_ok(blocks)
            &&& out == #[trigger] encode::stream(p.width, p.height, blocks)
        };
    law_stream_round_trip(p.width, p.height, blocks);
    let f = coded_frame(p.width, p.height, blocks);
    scan::lemma_pieces(p.width, 8);
    scan::lemma_pieces(p.height, 8);
    assert forall|i: int| 0 <= i < f.comps.len() implies frame::comp_paintable(f, i) by {
        let w = p.width;
        let h = p.height;
        let pw = frame::plane_width(f, i);
        let ph = frame::plane_height(f, i);
        lemma_planes(w, h, blocks, i);
        assert((w - 1) * pw <= u32::MAX) by (nonlinear_arith)
            requires
                1 <= w <= 65500,
                0 <= pw <= 65504,
        ;
        assert((h - 1) * ph <= u32::MAX) by (nonlinear_arith)
            requires
                1 <= h <= 65500,
                0 <= ph <= 65504,
        ;
    }
}

/// `s` are the samples that remain of component `ci` of a square: transformed, quantized and
/// transformed back.
pub open spec fn remains<
    E: Fn([u8; 64], [u8; 64], [u8; 64], usize) -> [i32; 64],
    F: Fn([i32; 64], [u16; 64]) -> [u8; 64],
>(forward: E, idct: F, p: Picture, mx: int, my: int, ci: int, s: [u8; 64]) -> bool {
    exists|d: Seq<i32>|
        #[trigger] encode::forward_of(forward, p, mx, my, ci, d) && frame::inverse(
            idct,
            encode::quantized_block(d, encode::table_of(ci)),
            encode::table_of(ci),
            s,
        )
}

/// `to_rgb` makes the colour `c` of the samples at place `k` of three blocks.
pub open spec fn combines<G: Fn(u8, u8, u8) -> (u8, u8, u8)>(
    to_rgb: G,
    s0: [u8; 64],
    s1: [u8; 64],
    s2: [u8; 64],
    k: int,
    c: Color,
) -> bool {
    call_ensures(to_rgb, (s0@[k], s1@[k], s2@[k]), (c.r, c.g, c.b))
}

/// The block that a pixel shows is what remains of a square.
proof fn lemma_remains<
    E: Fn([u8; 64], [u8; 64], [u8; 64], usize) -> [i32; 64],
    F: Fn([i32; 64], [u16; 64]) -> [u8; 64],
>(
    forward: E,
    idct: F,
    p: Picture,
    blocks: Seq<Seq<i32>>,
    samples: Seq<Seq<[u8; 64]>>,
    ci: int,
    mx: int,
    my: int,
)
    requires
        0 <= ci < 3,
        0 <= mx < scan::pieces(p.width, 8),
        0 <= my < scan::pieces(p.height, 8),
        encode::picture_blocks(forward, p, blocks),
        frame::transformed(coded_frame(p.width, p.height, blocks), idct, samples),
    ensures
        remains(
            forward,
            idct,
            p,
            mx,
            my,
            ci,
            samples[ci][my * scan::pieces(p.width, 8) + mx],
        ),
{
    let f = coded_frame(p.width, p.height, blocks);
    let a = f.across;
    let d = f.down;
    let unit = my * a + mx;
    assert(0 <= unit < a * d) by (nonlinear_arith)
        requires
            unit == my * a + mx,
            0 <= mx < a,
            0 <= my < d,
    ;
    vstd::arithmetic::div_mod::lemma_fundamental_div_mod_converse(unit, a, my, mx);
    let n = 3 * unit + ci;
    assert(f.blocks[ci].len() == a * d);
    let s = samples[ci][unit];
    assert(frame::inverse(idct, f.blocks[ci][unit], f.quant[f.comps[ci].tq as int], s));
    assert(f.quant[f.comps[ci].tq as int] == encode::table_of(ci));
    assert(n / 3 == unit && n % 3 == ci);
    assert(encode::picture_block(forward, p, n, blocks[n]));
}

/// In a file that was made of a picture, every pixel shows what remains of the picture at the place
/// that its own place is stretched to.
pub proof fn law_pixel_round_trip<
    E: Fn([u8; 64], [u8; 64], [u8; 64], usize) -> [i32; 64],
    F: Fn([i32; 64], [u16; 64]) -> [u8; 64],
    G: Fn(u8, u8, u8) -> (u8, u8, u8),
>(forward: E, idct: F, to_rgb: G, p: Picture, out: Seq<u8>, q: Picture, x: int, y: int)
    requires
        encode::encodable(p),
        encode::encodes_to(forward, p, out),
        decode::depicts(out, idct, to_rgb, q),
        p.has(x, y),
    ensures
        ({
            let sx = stretched(x, p.width);
            let sy = stretched(y, p.height);
            exists|s0: [u8; 64], s1: [u8; 64], s2: [u8; 64]|
                {
                    &&& remains(forward, idct, p, sx / 8, sy / 8, 0, s0)
                    &&& remains(forward, idct, p, sx / 8, sy / 8, 1, s1)
                    &&& remains(forward, idct, p, sx / 8, sy / 8, 2, s2)
                    &&& #[trigger] combines(
                        to_rgb,
                        s0,
                        s1,
                        s2,
                        (sy % 8) * 8 + sx % 8,
                        q.pixel(x, y),
                    )
                }
        }),
{
    let blocks = choose|blocks: Seq<Seq<i32>>|
        {
            &&& encode::picture_blocks(forward, p, blocks)
            &&& encode::blocks_ok(blocks)
            &&& out == #[trigger] encode::stream(p.width, p.height, blocks)
        };
    law_stream_round_trip(p.width, p.height, blocks);
    let f = coded_frame(p.width, p.height, blocks);
    let samples = choose|samples: Seq<Seq<[u8; 64]>>|
        frame::transformed(f, idct, samples) && #[trigger] frame::painted(f, samples, to_rgb, q);
    law_stretched(x, p.width);
    law_stretched(y, p.height);
    let sx = stretched(x, p.width);
    let sy = stretched(y, p.height);
    let unit = (sy / 8) * scan::pieces(p.width, 8) + sx / 8;
    lemma_remains(forward, idct, p, blocks, samples, 0, sx / 8, sy / 8);
    lemma_remains(forward, idct, p, blocks, samples, 1, sx / 8, sy / 8);
    lemma_remains(forward, idct, p, blocks, samples, 2, sx / 8, sy / 8);
    lemma_shown_place(p.width, p.height, blocks, samples, 0, x, y);
    lemma_shown_place(p.width, p.height, blocks, samples, 1, x, y);
    lemma_shown_place(p.width, p.height, blocks, samples, 2, x, y);
    assert(q.has(x, y));
    assert(frame::shows(f, samples, to_rgb, x, y, q.pixel(x, y)));
    assert(combines(
        to_rgb,
        samples[0][unit],
        samples[1][unit],
        samples[2][unit],
        (sy % 8) * 8 + sx % 8,
        q.pixel(x, y),
    ));
}

} // verus!
