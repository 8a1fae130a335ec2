//! What in a file does not matter: segments of other kinds, and bytes behind the coded scan.
use vstd::prelude::*;

use crate::image::Image;
use crate::jpg::bits;
use crate::jpg::decode;
use crate::jpg::encode;
use crate::jpg::error::Error;
use crate::jpg::frame;
use crate::jpg::header;
use crate::jpg::header::{Component, HeaderView};
use crate::jpg::huffman;
use crate::jpg::reader;
use crate::jpg::scan;
use crate::jpg::scan::ScanState;
use crate::jpg::zigzag;

verus! {

/// `b` begins with `a`.
spec fn begins<T>(a: Seq<T>, b: Seq<T>) -> bool {
    a.len() <= b.len() && forall|i: int| 0 <= i < a.len() ==> #[trigger] a[i] == b[i]
}

/// A data byte is read the same when there is more input behind it.
proof fn lemma_next_byte_tail(a: Seq<u8>, tail: Seq<u8>, pos: int)
    requires
        0 <= pos <= a.len(),
        reader::next_byte_at(a, pos).0 is Some,
    ensures
        reader::next_byte_at(a + tail, pos) == reader::next_byte_at(a, pos),
    decreases a.len() - pos,
{
    if a[pos] == 0xFF && 0xD0 <= a[pos + 1] <= 0xD7 {
        lemma_next_byte_tail(a, tail, pos + 2);
    }
}

/// More input can only add data bytes at the end.
proof fn lemma_entropy_tail(a: Seq<u8>, tail: Seq<u8>, pos: int)
    requires
        0 <= pos <= a.len(),
    ensures
        begins(reader::entropy_bytes(a, pos), reader::entropy_bytes(a + tail, pos)),
    decreases a.len() - pos,
{
    reader::lemma_next_byte_moves(a, pos);
    let (byte, end, _) = reader::next_byte_at(a, pos);
    if byte is Some {
        lemma_next_byte_tail(a, tail, pos);
        lemma_entropy_tail(a, tail, end);
        let x = reader::entropy_bytes(a, end);
        let y = reader::entropy_bytes(a + tail, end);
        assert(reader::entropy_bytes(a, pos) == seq![byte->0] + x);
        assert(reader::entropy_bytes(a + tail, pos) == seq![byte->0] + y);
        assert forall|i: int| 0 <= i < 1 + x.len() implies #[trigger] (seq![byte->0] + x)[i] == (
        seq![byte->0] + y)[i] by {
            if i > 0 {
                assert(x[i - 1] == y[i - 1]);
            }
        }
    }
}

/// More bytes add their bits at the end.
proof fn lemma_bits_tail(x: Seq<u8>, y: Seq<u8>)
    requires
        begins(x, y),
    ensures
        begins(bits::bits_of(x), bits::bits_of(y)),
{
    assert forall|i: int| 0 <= i < bits::bits_of(x).len() implies #[trigger] bits::bits_of(x)[i]
        == bits::bits_of(y)[i] by {
        assert(x[i / 8] == y[i / 8]);
    }
}

/// A symbol that was read is read the same when there are more bits behind it.
proof fn lemma_symbol_tail(codes: Seq<(u16, u8, u8)>, a: Seq<bool>, b: Seq<bool>, p: int, len: int)
    requires
        begins(a, b),
        0 <= p,
        1 <= len,
        huffman::symbol_from(codes, a, p, len) is Ok,
    ensures
        huffman::symbol_from(codes, b, p, len) == huffman::symbol_from(codes, a, p, len),
        p < huffman::symbol_from(codes, a, p, len)->Ok_0.1 <= a.len(),
    decreases 17 - len,
{
    assert forall|i: int| 0 <= i < len implies #[trigger] a[p + i] == b[p + i] by {}
    bits::lemma_value_same(a, p, b, p, len);
    if huffman::find_code(codes, bits::value_at(a, p, len), len, 0) is None {
        lemma_symbol_tail(codes, a, b, p, len + 1);
    }
}

/// A coefficient is read the same when there are more bits behind it.
proof fn lemma_amplitude_tail(a: Seq<bool>, b: Seq<bool>, p: int, t: int)
    requires
        begins(a, b),
        0 <= p,
        p + t <= a.len(),
    ensures
        scan::amplitude_at(b, p, t) == scan::amplitude_at(a, p, t),
{
    assert forall|i: int| 0 <= i < t implies #[trigger] a[p + i] == b[p + i] by {}
    bits::lemma_value_same(a, p, b, p, t);
}

/// The rest of a block is read the same when there are more bits behind it.
proof fn lemma_ac_tail(
    ac: Seq<(u16, u8, u8)>,
    a: Seq<bool>,
    b: Seq<bool>,
    p: int,
    k: int,
    block: Seq<i32>,
)
    requires
        begins(a, b),
        0 <= p,
        scan::ac_from(ac, a, p, k, block) is Ok,
    ensures
        scan::ac_from(ac, b, p, k, block) == scan::ac_from(ac, a, p, k, block),
        p <= scan::ac_from(ac, a, p, k, block)->Ok_0.1,
    decreases 80 - k,
{
    if k < 64 {
        lemma_symbol_tail(ac, a, b, p, 1);
        let (rs, q) = huffman::symbol_at(ac, a, p)->Ok_0;
        if rs == 0xF0 {
            lemma_ac_tail(ac, a, b, q, k + 16, block);
        } else if rs != 0x00 {
            lemma_amplitude_tail(a, b, q, (rs % 16) as int);
            lemma_ac_tail(
                ac,
                a,
                b,
                q + rs % 16,
                k + rs / 16 + 1,
                block.update(
                    zigzag::ZIGZAG@[k + rs / 16] as int,
                    scan::amplitude_at(a, q, (rs % 16) as int) as i32,
                ),
            );
        }
    }
}

/// A block is read the same when there are more bits behind it.
proof fn lemma_block_tail(
    dc: Seq<(u16, u8, u8)>,
    ac: Seq<(u16, u8, u8)>,
    a: Seq<bool>,
    b: Seq<bool>,
    p: int,
    pred: int,
)
    requires
        begins(a, b),
        0 <= p,
        scan::block_at(dc, ac, a, p, pred) is Some,
        scan::block_at(dc, ac, a, p, pred)->0 is Ok,
    ensures
        scan::block_at(dc, ac, b, p, pred) == scan::block_at(dc, ac, a, p, pred),
        p <= scan::block_at(dc, ac, a, p, pred)->0->Ok_0.1,
{
    lemma_symbol_tail(dc, a, b, p, 1);
    let (t, q) = huffman::symbol_at(dc, a, p)->Ok_0;
    lemma_amplitude_tail(a, b, q, t as int);
    let first = pred + scan::amplitude_at(a, q, t as int);
    lemma_ac_tail(ac, a, b, q + t, 1, scan::flat_block(first as i32));
}

/// Blocks of one component are read the same when there are more bits behind them.
proof fn lemma_blocks_tail(
    c: Component,
    dc: Seq<(u16, u8, u8)>,
    ac: Seq<(u16, u8, u8)>,
    a: Seq<bool>,
    b: Seq<bool>,
    s: ScanState,
    ci: int,
    n: int,
)
    requires
        begins(a, b),
        0 <= s.p,
        scan::blocks_from(c, dc, ac, a, s, ci, n) is Some,
        scan::blocks_from(c, dc, ac, a, s, ci, n)->0 is Ok,
    ensures
        scan::blocks_from(c, dc, ac, b, s, ci, n) == scan::blocks_from(c, dc, ac, a, s, ci, n),
        0 <= scan::blocks_from(c, dc, ac, a, s, ci, n)->0->Ok_0.p,
    decreases n,
{
    if n > 0 {
        lemma_block_tail(dc, ac, a, b, s.p, s.preds[ci]);
        let (block, q) = scan::block_at(dc, ac, a, s.p, s.preds[ci])->0->Ok_0;
        let next = ScanState {
            p: q,
            preds: s.preds.update(ci, block[0] as int),
            blocks: s.blocks.update(ci, s.blocks[ci].push(block)),
        };
        lemma_blocks_tail(c, dc, ac, a, b, next, ci, n - 1);
    }
}

/// A coding unit is read the same when there are more bits behind it.
proof fn lemma_unit_tail(h: HeaderView, a: Seq<bool>, b: Seq<bool>, s: ScanState, ci: int)
    requires
        begins(a, b),
        0 <= s.p,
        scan::unit_from(h, a, s, ci) is Some,
        scan::unit_from(h, a, s, ci)->0 is Ok,
    ensures
        scan::unit_from(h, b, s, ci) == scan::unit_from(h, a, s, ci),
        0 <= scan::unit_from(h, a, s, ci)->0->Ok_0.p,
    decreases h.comps.len() - ci,
{
    if ci < h.comps.len() {
        let c = h.comps[ci];
        let dc = h.dc[c.dc as int]->0;
        let ac = h.ac[c.ac as int]->0;
        lemma_blocks_tail(c, dc, ac, a, b, s, ci, c.hs * c.vs);
        let next = scan::blocks_from(c, dc, ac, a, s, ci, c.hs * c.vs)->0->Ok_0;
        lemma_unit_tail(h, a, b, next, ci + 1);
    }
}

/// Coding units are read the same when there are more bits behind them.
proof fn lemma_units_tail(h: HeaderView, a: Seq<bool>, b: Seq<bool>, s: ScanState, m: int)
    requires
        begins(a, b),
        0 <= s.p,
        scan::units_from(h, a, s, m) is Some,
        scan::units_from(h, a, s, m)->0 is Ok,
    ensures
        scan::units_from(h, b, s, m) == scan::units_from(h, a, s, m),
    decreases m,
{
    if m > 0 {
        lemma_unit_tail(h, a, b, s, 0);
        let next = scan::unit_from(h, a, s, 0)->0->Ok_0;
        lemma_units_tail(h, a, b, next, m - 1);
    }
}

/// Selectors that stand elsewhere name the same tables.
pub proof fn lemma_selectors_same(
    comps: Seq<Component>,
    a: Seq<u8>,
    at: int,
    b: Seq<u8>,
    bt: int,
    n: int,
)
    requires
        forall|j: int| 0 <= j < 2 * n ==> #[trigger] a[at + j] == b[bt + j],
    ensures
        header::with_selectors(comps, a, at, n) == header::with_selectors(comps, b, bt, n),
    decreases n,
{
    if n > 0 {
        lemma_selectors_same(comps, a, at, b, bt, n - 1);
        assert(a[at + (2 * (n - 1))] == b[bt + (2 * (n - 1))]);
        assert(a[at + (2 * (n - 1) + 1)] == b[bt + (2 * (n - 1) + 1)]);
    }
}

/// Segments up to a scan header are read the same when there is more input behind them.
proof fn lemma_segments_tail(data: Seq<u8>, tail: Seq<u8>, i: int, h: HeaderView)
    requires
        0 <= i,
        header::segments_from(data, i, h) is Some,
        header::segments_from(data, i, h)->0 is Ok,
        header::segments_from(data, i, h)->0->Ok_0.1 > 0,
    ensures
        header::segments_from(data + tail, i, h) == header::segments_from(data, i, h),
    decreases data.len() - i,
{
    let all = data + tail;
    if data[i] != 0xFF {
        lemma_segments_tail(data, tail, i + 1, h);
    } else if data[i + 1] == 0xDA {
        lemma_selectors_same(h.comps, data, i + 5, all, i + 5, data[i + 4] as int);
    } else {
        let len = header::be16_at(data, i + 2);
        let body = data.subrange(i + 4, i + 2 + len);
        assert(all.subrange(i + 4, i + 2 + len) =~= body);
        let next = header::segment(h, data[i + 1], body)->0->Ok_0;
        lemma_segments_tail(data, tail, i + 2 + len, next);
    }
}

/// The start marker of a file ends its coded data.
pub proof fn lemma_no_bits(data: Seq<u8>)
    requires
        data.len() >= 2,
        data[0] == 0xFF,
        data[1] == 0xD8,
    ensures
        scan::scan_bits(data, 0) == Seq::<bool>::empty(),
{
    assert(data.subrange(0, data.len() as int) =~= data);
    assert(reader::next_byte_at(data, 0).0 is None);
    assert(scan::scan_bits(data, 0) =~= Seq::<bool>::empty());
}

/// A picture that can be painted comes from a file with a scan header.
proof fn lemma_needs_scan(data: Seq<u8>)
    requires
        scan::frame_of(data) is Some,
        scan::frame_of(data)->0 is Ok,
        decode::decodable(data),
    ensures
        header::header_of(data)->0->Ok_0.1 > 0,
{
    let f = scan::frame_of(data)->0->Ok_0;
    let (h, start) = header::header_of(data)->0->Ok_0;
    header::law_header_wf(data);
    if start == 0 {
        lemma_no_bits(data);
        scan::law_frame_wf(data);
        assert(frame::comp_paintable(f, 0));
        let c = h.comps[0];
        let m = f.across * f.down;
        assert(m >= 1) by (nonlinear_arith)
            requires
                m == f.across * f.down,
                f.across >= 1,
                f.down >= 1,
        ;
        assert(c.hs * c.vs >= 1) by (nonlinear_arith)
            requires
                c.hs >= 1,
                c.vs >= 1,
        ;
        let none = Seq::<bool>::empty();
        let s = scan::scan_start(h.comps.len());
        let dc = h.dc[c.dc as int]->0;
        let ac = h.ac[c.ac as int]->0;
        assert(huffman::symbol_at(dc, none, 0) is Err);
        assert(!(scan::blocks_from(c, dc, ac, none, s, 0, c.hs * c.vs) matches Some(Ok(_))));
        assert(!(scan::unit_from(h, none, s, 0) matches Some(Ok(_))));
        assert(!(scan::units_from(h, none, s, m) matches Some(Ok(_))));
    }
}

/// Bytes behind the coded scan do not matter: a file that shows a picture shows the same picture
/// with any bytes at its end.
pub proof fn law_tail_is_ignored<
    F: Fn([i32; 64], [u16; 64]) -> [u8; 64],
    G: Fn(u8, u8, u8) -> (u8, u8, u8),
>(data: Seq<u8>, tail: Seq<u8>, idct: F, to_rgb: G, r: Result<Image, Error>)
    requires
        scan::frame_of(data) matches Some(Ok(_)),
        decode::decodable(data),
    ensures
        scan::frame_of(data + tail) == scan::frame_of(data),
        decode::decodable(data + tail),
        decode::decodes_to(data + tail, idct, to_rgb, r) <==> decode::decodes_to(
            data,
            idct,
            to_rgb,
            r,
        ),
{
    let all = data + tail;
    let (h, start) = header::header_of(data)->0->Ok_0;
    lemma_needs_scan(data);
    lemma_segments_tail(data, tail, 2, header::blank());
    assert(header::header_of(all) == header::header_of(data));
    let part = data.subrange(start, data.len() as int);
    assert(all.subrange(start, all.len() as int) =~= part + tail);
    lemma_entropy_tail(part, tail, 0);
    lemma_bits_tail(reader::entropy_bytes(part, 0), reader::entropy_bytes(part + tail, 0));
    lemma_units_tail(
        h,
        scan::scan_bits(data, start),
        scan::scan_bits(all, start),
        scan::scan_start(h.comps.len()),
        scan::units_across(h) * scan::units_down(h),
    );
}

/// A file that decodes to an image decodes to an image that shows the same with any bytes at its
/// end, as long as the transform and the conversion do not vary.
pub proof fn law_tail_decodes_the_same<
    F: Fn([i32; 64], [u16; 64]) -> [u8; 64],
    G: Fn(u8, u8, u8) -> (u8, u8, u8),
>(
    data: Seq<u8>,
    tail: Seq<u8>,
    idct: F,
    to_rgb: G,
    img: Image,
    r: Result<Image, Error>,
)
    requires
        decode::steady_idct(idct),
        decode::steady_to_rgb(to_rgb),
        decode::decodable(data),
        decode::decodes_to(data, idct, to_rgb, Ok(img)),
        decode::decodes_to(data + tail, idct, to_rgb, r),
    ensures
        decode::same_result(Ok(img), r),
{
    law_tail_is_ignored(data, tail, idct, to_rgb, r);
    decode::law_decoding_repeats(data, idct, to_rgb, Ok(img), r);
}

/// Markers of segments that say nothing about the picture. Those of comments and of application
/// data are among them.
pub open spec fn other_marker(m: u8) -> bool {
    m != 0xC0 && m != 0xC2 && m != 0xC4 && m != 0xD9 && m != 0xDA && m != 0xDB
}

/// The start of a file.
pub open spec fn start_bytes() -> Seq<u8> {
    seq![0xFFu8, 0xD8]
}

/// A segment as bytes: its marker, its length, and its body.
pub open spec fn whole_segment(m: u8, body: Seq<u8>) -> Seq<u8> {
    seq![0xFFu8, m] + encode::be16_bytes(2 + body.len() as int) + body
}

/// A part that stands `n` places further on is the same.
proof fn lemma_part_shift(a: Seq<u8>, b: Seq<u8>, n: int, i: int, end: int)
    requires
        0 <= n,
        2 <= i <= end <= a.len(),
        b.len() == a.len() + n,
        forall|j: int| 2 <= j < a.len() ==> #[trigger] a[j] == b[j + n],
    ensures
        b.subrange(i + n, end + n) == a.subrange(i, end),
{
    assert forall|j: int| 0 <= j < end - i implies b.subrange(i + n, end + n)[j] == a.subrange(
        i,
        end,
    )[j] by {
        assert(a[i + j] == b[(i + j) + n]);
    }
    assert(b.subrange(i + n, end + n) =~= a.subrange(i, end));
}

/// Selectors that stand `n` places further on name the same tables.
proof fn lemma_selectors_shift(
    a: Seq<u8>,
    b: Seq<u8>,
    n: int,
    at: int,
    pairs: int,
    comps: Seq<Component>,
)
    requires
        0 <= n,
        2 <= at,
        at + 2 * pairs <= a.len(),
        forall|j: int| 2 <= j < a.len() ==> #[trigger] a[j] == b[j + n],
    ensures
        header::with_selectors(comps, b, at + n, pairs) == header::with_selectors(
            comps,
            a,
            at,
            pairs,
        ),
{
    assert forall|j: int| 0 <= j < 2 * pairs implies #[trigger] a[at + j] == b[at + n + j] by {
        assert(a[at + j] == b[(at + j) + n]);
    }
    lemma_selectors_same(comps, a, at, b, at + n, pairs);
}

/// Segments that stand `n` places further on are read the same.
#[verifier::rlimit(30)]
pub proof fn lemma_segments_shift(a: Seq<u8>, b: Seq<u8>, n: int, i: int, h: HeaderView)
    requires
        0 <= n,
        2 <= i,
        b.len() == a.len() + n,
        b.len() <= isize::MAX,
        forall|j: int| 2 <= j < a.len() ==> #[trigger] a[j] == b[j + n],
    ensures
        header::segments_from(b, i + n, h) == match header::segments_from(a, i, h) {
            Some(Ok((g, start))) => Some(
                Ok(
                    (
                        g,
                        if start == 0 {
                            0
                        } else {
                            start + n
                        },
                    ),
                ),
            ),
            r => r,
        },
    decreases a.len() - i,
{
    if i + 2 <= a.len() {
        assert(a[i] == b[i + n]);
        assert(a[i + 1] == b[i + 1 + n]);
        if a[i] != 0xFF {
            lemma_segments_shift(a, b, n, i + 1, h);
        } else if a[i + 1] == 0xD9 {
        } else if i + 4 <= a.len() {
            assert(a[i + 2] == b[i + 2 + n]);
            assert(a[i + 3] == b[i + 3 + n]);
            let len = header::be16_at(a, i + 2);
            assert(header::be16_at(b, i + n + 2) == len);
            assert(0 <= len <= 0xFFFF);
            if a[i + 1] == 0xDA {
                if i + 5 <= a.len() {
                    assert(a[i + 4] == b[i + 4 + n]);
                    let ns = a[i + 4] as int;
                    if i + 5 + 2 * ns <= a.len() {
                        lemma_selectors_shift(a, b, n, i + 5, ns, h.comps);
                    }
                }
            } else if 2 <= len && i + 2 + len <= a.len() {
                let body = a.subrange(i + 4, i + 2 + len);
                lemma_part_shift(a, b, n, i + 4, i + 2 + len);
                if let Some(Ok(next)) = header::segment(h, a[i + 1], body) {
                    lemma_segments_shift(a, b, n, i + 2 + len, next);
                }
            }
        }
    }
}

/// Segments of other kinds do not matter: with one put behind its start marker a file is refused
/// with the same error or shows the same picture.
#[verifier::rlimit(30)]
pub proof fn law_other_segments_are_skipped<
    F: Fn([i32; 64], [u16; 64]) -> [u8; 64],
    G: Fn(u8, u8, u8) -> (u8, u8, u8),
>(m: u8, body: Seq<u8>, rest: Seq<u8>, idct: F, to_rgb: G, r: Result<Image, Error>)
    requires
        other_marker(m),
        body.len() <= 0xFFFD,
        6 + body.len() + rest.len() <= isize::MAX,
    ensures
        scan::frame_of(start_bytes() + whole_segment(m, body) + rest) == scan::frame_of(
            start_bytes() + rest,
        ),
        decode::decodable(start_bytes() + whole_segment(m, body) + rest) <==> decode::decodable(
            start_bytes() + rest,
        ),
        decode::decodes_to(start_bytes() + whole_segment(m, body) + rest, idct, to_rgb, r)
            <==> decode::decodes_to(start_bytes() + rest, idct, to_rgb, r),
{
    let a = start_bytes() + rest;
    let part = whole_segment(m, body);
    let b = start_bytes() + part + rest;
    let n = part.len() as int;
    let len = 2 + body.len() as int;
    assert(b[2] == 0xFF && b[3] == m);
    assert(b[4] == (len / 256) as u8 && b[5] == (len % 256) as u8);
    assert(header::be16_at(b, 4) == len);
    assert(header::segments_from(b, 2, header::blank()) == header::segments_from(
        b,
        2 + n,
        header::blank(),
    ));
    assert forall|j: int| 2 <= j < a.len() implies #[trigger] a[j] == b[j + n] by {}
    lemma_segments_shift(a, b, n, 2, header::blank());
    header::law_header_wf(a);
    if let Some(Ok((h, start))) = header::header_of(a) {
        if start == 0 {
            lemma_no_bits(a);
            lemma_no_bits(b);
        } else if start <= a.len() {
            lemma_start(a, 2, header::blank());
            assert(b.subrange(start + n, b.len() as int) =~= a.subrange(start, a.len() as int));
        }
    }
    assert(scan::frame_of(b) == scan::frame_of(a));
}

/// With a segment of another kind behind its start marker a file is refused with the same error or
/// decodes to an image that shows the same, as long as the transform and the conversion do not vary.
pub proof fn law_other_segments_decode_the_same<
    F: Fn([i32; 64], [u16; 64]) -> [u8; 64],
    G: Fn(u8, u8, u8) -> (u8, u8, u8),
>(
    m: u8,
    body: Seq<u8>,
    rest: Seq<u8>,
    idct: F,
    to_rgb: G,
    r: Result<Image, Error>,
    r2: Result<Image, Error>,
)
    requires
        decode::steady_idct(idct),
        decode::steady_to_rgb(to_rgb),
        other_marker(m),
        body.len() <= 0xFFFD,
        6 + body.len() + rest.len() <= isize::MAX,
        decode::decodes_to(start_bytes() + rest, idct, to_rgb, r),
        decode::decodes_to(start_bytes() + whole_segment(m, body) + rest, idct, to_rgb, r2),
    ensures
        decode::same_result(r, r2),
{
    law_other_segments_are_skipped(m, body, rest, idct, to_rgb, r2);
    decode::law_decoding_repeats(start_bytes() + rest, idct, to_rgb, r, r2);
}

/// Coded data that follows a scan header starts behind the start marker.
pub proof fn lemma_start(data: Seq<u8>, i: int, h: HeaderView)
    requires
        2 <= i,
    ensures
        header::segments_from(data, i, h) matches Some(Ok((g, start))) ==> start == 0 || start >= 2,
    decreases data.len() - i,
{
    if i + 2 <= data.len() {
        if data[i] != 0xFF {
            lemma_start(data, i + 1, h);
        } else if data[i + 1] != 0xD9 && data[i + 1] != 0xDA && i + 4 <= data.len() {
            let len = header::be16_at(data, i + 2);
            if 2 <= len && i + 2 + len <= data.len() {
                let body = data.subrange(i + 4, i + 2 + len);
                if let Some(Ok(next)) = header::segment(h, data[i + 1], body) {
                    lemma_start(data, i + 2 + len, next);
                }
            }
        }
    }
}

} // verus!
