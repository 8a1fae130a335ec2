//! What each segment of a file says, and what it leaves as it was.
use vstd::prelude::*;

use crate::jpg::error::Error;
use crate::jpg::header;
use crate::jpg::header::{Component, HeaderView};
use crate::jpg::huffman;
use crate::jpg::scan;
use crate::jpg::skipping;
use crate::jpg::zigzag;

verus! {

/// What comes of one reading after another: the second goes on where the first ended, unless the
/// first failed.
pub open spec fn and_next(
    first: Option<Result<HeaderView, Error>>,
    m: u8,
    body: Seq<u8>,
) -> Option<Result<HeaderView, Error>> {
    match first {
        Some(Ok(h)) => header::segment(h, m, body),
        other => other,
    }
}

/// A quantization table as it stands in a segment: its number, and 64 steps of one byte or, with
/// sixteen added to the number, of two.
pub open spec fn whole_quant_table(t: Seq<u8>) -> bool {
    ||| t.len() == 65 && t[0] < 16
    ||| t.len() == 129 && t[0] >= 16
}

/// Step `j` of a quantization table, in the order in which it stands in a segment.
pub open spec fn stored_step(t: Seq<u8>, j: int) -> int {
    if t[0] < 16 {
        t[1 + j] as int
    } else {
        256 * t[1 + 2 * j] + t[2 + 2 * j]
    }
}

/// A segment with one quantization table sets that table, in zigzag order, and leaves the other
/// tables and all the rest as they were. A number above three is refused.
pub proof fn law_quant_table(h: HeaderView, t: Seq<u8>)
    requires
        whole_quant_table(t),
        h.quant.len() == 4,
    ensures
        t[0] % 16 > 3 ==> header::segment(h, 0xDB, t) == Some(
            Err::<HeaderView, Error>(Error::Truncated),
        ),
        t[0] % 16 <= 3 ==> (header::segment(h, 0xDB, t) matches Some(Ok(g)) && {
            &&& g.quant.len() == 4
            &&& forall|u: int| 0 <= u < 4 && u != t[0] % 16 ==> #[trigger] g.quant[u] == h.quant[u]
            &&& g.quant[t[0] as int % 16].len() == 64
            &&& forall|j: int|
                0 <= j < 64 ==> g.quant[t[0] as int % 16][#[trigger] zigzag::ZIGZAG@[j] as int]
                    == stored_step(t, j)
            &&& g.width == h.width && g.height == h.height && g.comps == h.comps
            &&& g.dc == h.dc && g.ac == h.ac
        }),
{
    reveal_with_fuel(header::quant_after, 3);
    zigzag::law_zigzag_is_permutation();
    if t[0] % 16 <= 3 {
        let table = if t[0] < 16 {
            header::quant_bytes(t, 1)
        } else {
            header::quant_words(t, 1)
        };
        assert(header::quant_after(t, 0, h.quant) == Ok::<Seq<Seq<u16>>, Error>(
            h.quant.update((t[0] % 16) as int, table),
        ));
        assert forall|j: int| 0 <= j < 64 implies table[#[trigger] zigzag::ZIGZAG@[j] as int]
            == stored_step(t, j) by {
            let n = zigzag::ZIGZAG@[j] as int;
            assert(zigzag::PLACE@[n] == j);
        }
    }
}

/// Reading tables from place `a.len()` on is reading those behind `a`.
proof fn lemma_quant_behind(a: Seq<u8>, b: Seq<u8>, k: int, quant: Seq<Seq<u16>>)
    requires
        0 <= k,
    ensures
        header::quant_after(a + b, a.len() + k, quant) == header::quant_after(b, k, quant),
    decreases b.len() - k,
{
    let all = a + b;
    let n = a.len() + k;
    if k < b.len() {
        assert(all[n] == b[k]);
        let slot = (b[k] % 16) as int;
        if k + 65 <= b.len() {
            assert(header::quant_bytes(all, n + 1) =~= header::quant_bytes(b, k + 1)) by {
                zigzag::law_zigzag_is_permutation();
            }
            lemma_quant_behind(a, b, k + 65, quant.update(slot, header::quant_bytes(b, k + 1)));
        }
        if k + 129 <= b.len() {
            assert(header::quant_words(all, n + 1) =~= header::quant_words(b, k + 1)) by {
                zigzag::law_zigzag_is_permutation();
            }
            lemma_quant_behind(a, b, k + 129, quant.update(slot, header::quant_words(b, k + 1)));
        }
    }
}

/// Quantization tables in one segment are read one after the other, as if each had a segment of its
/// own.
pub proof fn law_quant_tables_in_turn(h: HeaderView, t: Seq<u8>, rest: Seq<u8>)
    requires
        whole_quant_table(t),
    ensures
        header::segment(h, 0xDB, t + rest) == and_next(header::segment(h, 0xDB, t), 0xDB, rest),
{
    reveal_with_fuel(header::quant_after, 2);
    let all = t + rest;
    assert(all[0] == t[0]);
    zigzag::law_zigzag_is_permutation();
    let slot = (t[0] % 16) as int;
    if t[0] < 16 {
        assert(header::quant_bytes(all, 1) =~= header::quant_bytes(t, 1));
        lemma_quant_behind(t, rest, 0, h.quant.update(slot, header::quant_bytes(t, 1)));
    } else {
        assert(header::quant_words(all, 1) =~= header::quant_words(t, 1));
        lemma_quant_behind(t, rest, 0, h.quant.update(slot, header::quant_words(t, 1)));
    }
}

/// A Huffman table as it stands in a segment: its class, times sixteen, and its number, how many
/// codes there are of each length, and their symbols.
pub open spec fn whole_huffman_table(t: Seq<u8>) -> bool {
    t.len() >= 17 && t.len() == 17 + huffman::symbols_before(t.subrange(1, 17), 16)
}

/// A segment with one Huffman table sets that table and leaves the other tables and all the rest as
/// they were.
pub proof fn law_huffman_table(h: HeaderView, t: Seq<u8>)
    requires
        whole_huffman_table(t),
        huffman::codes_defined(t.subrange(1, 17)),
        h.dc.len() == 4,
        h.ac.len() == 4,
    ensures
        header::segment(h, 0xC4, t) matches Some(Ok(g)) && {
            let codes = huffman::canonical_codes(t.subrange(1, 17), t.skip(17));
            let slot = t[0] as int % 4;
            &&& g.dc.len() == 4 && g.ac.len() == 4
            &&& t[0] < 16 ==> g.dc[slot] == Some(codes) && g.ac == h.ac
            &&& t[0] >= 16 ==> g.ac[slot] == Some(codes) && g.dc == h.dc
            &&& forall|u: int|
                0 <= u < 4 && u != slot ==> #[trigger] g.dc[u] == h.dc[u] && g.ac[u] == h.ac[u]
            &&& g.width == h.width && g.height == h.height && g.comps == h.comps
            &&& g.quant == h.quant
        },
{
    reveal_with_fuel(header::huffman_after, 3);
    let total = huffman::symbols_before(t.subrange(1, 17), 16);
    assert(t.subrange(17, 17 + total) =~= t.skip(17));
}

proof fn lemma_huffman_behind(
    a: Seq<u8>,
    b: Seq<u8>,
    k: int,
    dc: Seq<Option<Seq<(u16, u8, u8)>>>,
    ac: Seq<Option<Seq<(u16, u8, u8)>>>,
)
    requires
        0 <= k,
    ensures
        header::huffman_after(a + b, a.len() + k, dc, ac) == header::huffman_after(b, k, dc, ac),
    decreases b.len() - k,
{
    let all = a + b;
    let n = a.len() + k;
    if k + 17 <= b.len() {
        assert(all[n] == b[k]);
        assert(all.subrange(n + 1, n + 17) =~= b.subrange(k + 1, k + 17));
        let counts = b.subrange(k + 1, k + 17);
        let total = huffman::symbols_before(counts, 16);
        if 0 <= total && k + 17 + total <= b.len() {
            let symbols = b.subrange(k + 17, k + 17 + total);
            assert(all.subrange(n + 17, n + 17 + total) =~= symbols);
            let codes = huffman::canonical_codes(counts, symbols);
            let slot = (b[k] % 4) as int;
            lemma_huffman_behind(a, b, k + 17 + total, dc.update(slot, Some(codes)), ac);
            lemma_huffman_behind(a, b, k + 17 + total, dc, ac.update(slot, Some(codes)));
        }
    }
}

/// Huffman tables in one segment are read one after the other, as if each had a segment of its own.
pub proof fn law_huffman_tables_in_turn(h: HeaderView, t: Seq<u8>, rest: Seq<u8>)
    requires
        whole_huffman_table(t),
    ensures
        header::segment(h, 0xC4, t + rest) == and_next(header::segment(h, 0xC4, t), 0xC4, rest),
{
    reveal_with_fuel(header::huffman_after, 2);
    let all = t + rest;
    assert(all[0] == t[0]);
    let counts = t.subrange(1, 17);
    assert(all.subrange(1, 17) =~= counts);
    let total = huffman::symbols_before(counts, 16);
    let symbols = t.subrange(17, 17 + total);
    assert(all.subrange(17, 17 + total) =~= symbols);
    let codes = huffman::canonical_codes(counts, symbols);
    let slot = (t[0] % 4) as int;
    lemma_huffman_behind(t, rest, 0, h.dc.update(slot, Some(codes)), h.ac);
    lemma_huffman_behind(t, rest, 0, h.dc, h.ac.update(slot, Some(codes)));
}

/// A segment that stands at `i` is taken in, and reading goes on behind it.
pub proof fn law_segment_in_turn(data: Seq<u8>, i: int, m: u8, body: Seq<u8>, h: HeaderView)
    requires
        0 <= i,
        body.len() <= 0xFFFD,
        i + 4 + body.len() <= data.len(),
        data.subrange(i, i + 4 + body.len()) == skipping::whole_segment(m, body),
        m != 0xD9,
        m != 0xDA,
    ensures
        header::segments_from(data, i, h) == match header::segment(h, m, body) {
            Some(Ok(next)) => header::segments_from(data, i + 4 + body.len(), next),
            Some(Err(e)) => Some(Err(e)),
            None => None,
        },
{
    let part = data.subrange(i, i + 4 + body.len());
    assert(data[i] == part[0] && data[i + 1] == part[1]);
    assert(data[i + 2] == part[2] && data[i + 3] == part[3]);
    assert(header::be16_at(data, i + 2) == 2 + body.len());
    assert(data.subrange(i + 4, i + 4 + body.len()) =~= body) by {
        assert forall|k: int| 0 <= k < body.len() implies data.subrange(
            i + 4,
            i + 4 + body.len(),
        )[k] == body[k] by {
            assert(part[4 + k] == body[k]);
        }
    }
}

/// A segment of another kind changes nothing, wherever it stands.
pub proof fn law_other_segment(h: HeaderView, m: u8, body: Seq<u8>)
    requires
        skipping::other_marker(m),
    ensures
        header::segment(h, m, body) == Some(Ok::<HeaderView, Error>(h)),
{
}

/// A file of which one part is known, and how its header is read on from behind that part.
proof fn lemma_behind(part: Seq<u8>, rest: Seq<u8>, g: HeaderView)
    requires
        2 + part.len() + rest.len() <= isize::MAX,
    ensures
        header::segments_from(
            skipping::start_bytes() + part + rest,
            2 + part.len() as int,
            g,
        ) == match header::segments_from(skipping::start_bytes() + rest, 2, g) {
            Some(Ok((f, start))) => Some(
                Ok(
                    (
                        f,
                        if start == 0 {
                            0
                        } else {
                            start + part.len()
                        },
                    ),
                ),
            ),
            r => r,
        },
{
    let a = skipping::start_bytes() + rest;
    let b = skipping::start_bytes() + part + rest;
    assert forall|j: int| 2 <= j < a.len() implies #[trigger] a[j] == b[j + part.len()] by {}
    skipping::lemma_segments_shift(a, b, part.len() as int, 2, g);
}

/// Two beginnings that leave the same header make the same of what is behind them.
proof fn lemma_same_frame(x: Seq<u8>, y: Seq<u8>, rest: Seq<u8>, g: HeaderView)
    requires
        2 + x.len() + rest.len() <= isize::MAX,
        2 + y.len() + rest.len() <= isize::MAX,
        header::header_of(skipping::start_bytes() + x + rest) == header::segments_from(
            skipping::start_bytes() + x + rest,
            2 + x.len() as int,
            g,
        ),
        header::header_of(skipping::start_bytes() + y + rest) == header::segments_from(
            skipping::start_bytes() + y + rest,
            2 + y.len() as int,
            g,
        ),
    ensures
        scan::frame_of(skipping::start_bytes() + x + rest) == scan::frame_of(
            skipping::start_bytes() + y + rest,
        ),
{
    let d = skipping::start_bytes() + rest;
    let a = skipping::start_bytes() + x + rest;
    let b = skipping::start_bytes() + y + rest;
    lemma_behind(x, rest, g);
    lemma_behind(y, rest, g);
    skipping::lemma_start(d, 2, g);
    skipping::lemma_no_bits(a);
    skipping::lemma_no_bits(b);
    if let Some(Ok((h, start))) = header::segments_from(d, 2, g) {
        if 2 <= start <= d.len() {
            let s = d.subrange(start, d.len() as int);
            assert(a.subrange(start + x.len(), a.len() as int) =~= s);
            assert(b.subrange(start + y.len(), b.len() as int) =~= s);
        }
    }
}

/// The header behind one segment at the start of a file.
proof fn lemma_first_segment(m: u8, body: Seq<u8>, rest: Seq<u8>)
    requires
        body.len() <= 0xFFFD,
        m != 0xD9,
        m != 0xDA,
    ensures
        header::header_of(skipping::start_bytes() + skipping::whole_segment(m, body) + rest)
            == match header::segment(header::blank(), m, body) {
            Some(Ok(next)) => header::segments_from(
                skipping::start_bytes() + skipping::whole_segment(m, body) + rest,
                2 + skipping::whole_segment(m, body).len() as int,
                next,
            ),
            Some(Err(e)) => Some(Err(e)),
            None => None,
        },
{
    let part = skipping::whole_segment(m, body);
    let all = skipping::start_bytes() + part + rest;
    assert(all.subrange(2, 6 + body.len() as int) =~= part);
    law_segment_in_turn(all, 2, m, body, header::blank());
}

/// The header behind two segments at the start of a file.
proof fn lemma_two_segments(m: u8, a: Seq<u8>, b: Seq<u8>, rest: Seq<u8>)
    requires
        a.len() <= 0xFFFD,
        b.len() <= 0xFFFD,
        m != 0xD9,
        m != 0xDA,
    ensures
        ({
            let both = skipping::whole_segment(m, a) + skipping::whole_segment(m, b);
            let all = skipping::start_bytes() + both + rest;
            header::header_of(all) == match and_next(
                header::segment(header::blank(), m, a),
                m,
                b,
            ) {
                Some(Ok(next)) => header::segments_from(all, 2 + both.len() as int, next),
                Some(Err(e)) => Some(Err(e)),
                None => None,
            }
        }),
{
    let first = skipping::whole_segment(m, a);
    let second = skipping::whole_segment(m, b);
    let all = skipping::start_bytes() + (first + second) + rest;
    assert(all =~= skipping::start_bytes() + first + (second + rest));
    lemma_first_segment(m, a, second + rest);
    if let Some(Ok(next)) = header::segment(header::blank(), m, a) {
        let i = 2 + first.len() as int;
        assert(all.subrange(i, i + 4 + b.len()) =~= second);
        law_segment_in_turn(all, i, m, b, next);
    }
}

/// Tables may stand in segments of their own or together in one: a file whose first segment holds
/// a table and others behind it holds the same frame, or is refused with the same error, as the file
/// with that table in a segment in front of the others.
pub proof fn law_tables_together(m: u8, t: Seq<u8>, others: Seq<u8>, rest: Seq<u8>)
    requires
        m == 0xDB && whole_quant_table(t) || m == 0xC4 && whole_huffman_table(t),
        t.len() + others.len() <= 0xFFFD,
        10 + t.len() + others.len() + rest.len() <= isize::MAX,
    ensures
        scan::frame_of(
            skipping::start_bytes() + skipping::whole_segment(m, t + others) + rest,
        ) == scan::frame_of(
            skipping::start_bytes() + (skipping::whole_segment(m, t) + skipping::whole_segment(
                m,
                others,
            )) + rest,
        ),
{
    let one = skipping::whole_segment(m, t + others);
    let two = skipping::whole_segment(m, t) + skipping::whole_segment(m, others);
    if m == 0xDB {
        law_quant_tables_in_turn(header::blank(), t, others);
    } else {
        law_huffman_tables_in_turn(header::blank(), t, others);
    }
    lemma_first_segment(m, t + others, rest);
    lemma_two_segments(m, t, others, rest);
    if let Some(Ok(next)) = header::segment(header::blank(), m, t + others) {
        lemma_same_frame(one, two, rest, next);
    }
}

/// A frame header gives the size and describes each component with three bytes: its id, its blocks
/// across and down a unit as two digits of sixteen, and its quantization table. What was said of
/// components before is gone; the tables stay.
pub proof fn law_frame_header(h: HeaderView, body: Seq<u8>)
    requires
        body.len() >= 6,
        body.len() >= 6 + 3 * body[5],
    ensures
        header::segment(h, 0xC0, body) matches Some(Ok(g)) && {
            &&& g.height == 256 * body[1] + body[2]
            &&& g.width == 256 * body[3] + body[4]
            &&& g.comps.len() == body[5]
            &&& forall|k: int|
                0 <= k < body[5] ==> {
                    let c = #[trigger] g.comps[k];
                    &&& c.id == body[6 + 3 * k]
                    &&& 16 * c.hs + c.vs == body[7 + 3 * k]
                    &&& c.vs < 16
                    &&& c.tq == body[8 + 3 * k]
                    &&& c.dc == 0 && c.ac == 0
                }
            &&& g.quant == h.quant && g.dc == h.dc && g.ac == h.ac
        },
{
}

/// The components keep all but their Huffman tables.
proof fn lemma_selectors_keep(comps: Seq<Component>, data: Seq<u8>, at: int, n: int, i: int)
    requires
        0 <= i < comps.len(),
    ensures
        ({
            let c = header::with_selectors(comps, data, at, n)[i];
            &&& header::with_selectors(comps, data, at, n).len() == comps.len()
            &&& c.id == comps[i].id && c.hs == comps[i].hs && c.vs == comps[i].vs
            &&& c.tq == comps[i].tq
        }),
    decreases n,
{
    if n > 0 {
        lemma_selectors_keep(comps, data, at, n - 1, i);
    }
}

/// Pairs that do not name a component do not change it.
proof fn lemma_not_named(comps: Seq<Component>, data: Seq<u8>, at: int, k: int, n: int, i: int)
    requires
        0 <= i < comps.len(),
        0 <= k <= n,
        forall|l: int| k <= l < n ==> #[trigger] data[at + 2 * l] != comps[i].id,
    ensures
        header::with_selectors(comps, data, at, n)[i] == header::with_selectors(
            comps,
            data,
            at,
            k,
        )[i],
    decreases n,
{
    if k < n {
        lemma_not_named(comps, data, at, k, n - 1, i);
        lemma_selectors_keep(comps, data, at, n - 1, i);
        assert(data[at + 2 * (n - 1)] != comps[i].id);
    }
}

/// The pair that names a component last gives it its Huffman tables: that for first coefficients
/// and that for the others as two digits of sixteen. A component that no pair names keeps what it
/// had.
pub proof fn law_selectors(comps: Seq<Component>, data: Seq<u8>, at: int, n: int, i: int, k: int)
    requires
        0 <= i < comps.len(),
        -1 <= k < n,
        k >= 0 ==> data[at + 2 * k] == comps[i].id,
        forall|l: int| k < l < n ==> #[trigger] data[at + 2 * l] != comps[i].id,
    ensures
        ({
            let c = header::with_selectors(comps, data, at, n)[i];
            &&& header::with_selectors(comps, data, at, n).len() == comps.len()
            &&& c.id == comps[i].id && c.hs == comps[i].hs && c.vs == comps[i].vs
            &&& c.tq == comps[i].tq
            &&& k >= 0 ==> 16 * c.dc + c.ac == data[at + 2 * k + 1] && c.ac < 16
            &&& k < 0 ==> c == comps[i]
        }),
{
    lemma_selectors_keep(comps, data, at, n, i);
    lemma_not_named(comps, data, at, k + 1, n, i);
    if k >= 0 {
        lemma_selectors_keep(comps, data, at, k, i);
    }
}

/// A scan header ends the header: it gives the components their Huffman tables and changes nothing
/// else, and the coded data starts right behind the segment, however long it says it is.
pub proof fn law_scan_header(data: Seq<u8>, i: int, body: Seq<u8>, h: HeaderView)
    requires
        0 <= i,
        1 <= body.len() <= 0xFFFD,
        1 + 2 * body[0] <= body.len(),
        i + 4 + body.len() <= data.len() <= isize::MAX,
        data.subrange(i, i + 4 + body.len()) == skipping::whole_segment(0xDA, body),
    ensures
        header::segments_from(data, i, h) matches Some(Ok((g, start))) && {
            &&& start == i + 4 + body.len()
            &&& g.comps == header::with_selectors(h.comps, body, 1, body[0] as int)
            &&& g.width == h.width && g.height == h.height
            &&& g.quant == h.quant && g.dc == h.dc && g.ac == h.ac
        },
{
    let part = data.subrange(i, i + 4 + body.len());
    assert(data[i] == part[0] && data[i + 1] == part[1]);
    assert(data[i + 2] == part[2] && data[i + 3] == part[3]);
    assert(header::be16_at(data, i + 2) == 2 + body.len());
    assert(data[i + 4] == part[4]);
    assert forall|j: int| 0 <= j < 2 * body[0] implies #[trigger] body[1 + j] == data[i + 5
        + j] by {
        assert(part[4 + (1 + j)] == body[1 + j]);
    }
    skipping::lemma_selectors_same(h.comps, body, 1, data, i + 5, body[0] as int);
}

/// Bytes other than 0xFF between segments do not matter.
pub proof fn law_stray_bytes(x: u8, rest: Seq<u8>)
    requires
        x != 0xFF,
        3 + rest.len() <= isize::MAX,
    ensures
        scan::frame_of(skipping::start_bytes() + seq![x] + rest) == scan::frame_of(
            skipping::start_bytes() + rest,
        ),
{
    let none = Seq::<u8>::empty();
    let all = skipping::start_bytes() + seq![x] + rest;
    assert(all[2] == x);
    assert(skipping::start_bytes() + none + rest =~= skipping::start_bytes() + rest);
    if rest.len() > 0 {
        lemma_same_frame(seq![x], none, rest, header::blank());
    } else {
        assert(skipping::start_bytes() + rest =~= skipping::start_bytes());
        assert(scan::frame_of(all) == scan::frame_of(skipping::start_bytes()));
    }
}

/// No segment makes a file something else than a JPEG file.
proof fn lemma_never_not_jpeg(data: Seq<u8>, i: int, h: HeaderView)
    requires
        0 <= i,
    ensures
        header::segments_from(data, i, h) != Some(
            Err::<(HeaderView, int), Error>(Error::NotJpeg),
        ),
    decreases data.len() - i,
{
    if i + 2 <= data.len() {
        if data[i] != 0xFF {
            lemma_never_not_jpeg(data, i + 1, h);
        } else if data[i + 1] != 0xD9 && data[i + 1] != 0xDA && i + 4 <= data.len() {
            let len = header::be16_at(data, i + 2);
            if 2 <= len && i + 2 + len <= data.len() {
                let body = data.subrange(i + 4, i + 2 + len);
                lemma_quant_error(body, 0, h.quant);
                lemma_huffman_error(body, 0, h.dc, h.ac);
                if let Some(Ok(next)) = header::segment(h, data[i + 1], body) {
                    lemma_never_not_jpeg(data, i + 2 + len, next);
                }
            }
        }
    }
}

proof fn lemma_quant_error(body: Seq<u8>, k: int, quant: Seq<Seq<u16>>)
    ensures
        header::quant_after(body, k, quant) matches Err(e) ==> e == Error::Truncated,
    decreases body.len() - k,
{
    if k < body.len() {
        let slot = (body[k] % 16) as int;
        if k + 65 <= body.len() {
            lemma_quant_error(body, k + 65, quant.update(slot, header::quant_bytes(body, k + 1)));
        }
        if k + 129 <= body.len() {
            lemma_quant_error(body, k + 129, quant.update(slot, header::quant_words(body, k + 1)));
        }
    }
}

proof fn lemma_huffman_error(
    body: Seq<u8>,
    k: int,
    dc: Seq<Option<Seq<(u16, u8, u8)>>>,
    ac: Seq<Option<Seq<(u16, u8, u8)>>>,
)
    ensures
        header::huffman_after(body, k, dc, ac) matches Some(Err(e)) ==> e == Error::Truncated,
    decreases body.len() - k,
{
    if k + 17 <= body.len() {
        let counts = body.subrange(k + 1, k + 17);
        let total = huffman::symbols_before(counts, 16);
        if 0 <= total && k + 17 + total <= body.len() {
            let codes = huffman::canonical_codes(counts, body.subrange(k + 17, k + 17 + total));
            let slot = (body[k] % 4) as int;
            lemma_huffman_error(body, k + 17 + total, dc.update(slot, Some(codes)), ac);
            lemma_huffman_error(body, k + 17 + total, dc, ac.update(slot, Some(codes)));
        }
    }
}

/// A file is refused as no JPEG file just where it does not begin with the start marker.
pub proof fn law_not_jpeg(data: Seq<u8>)
    ensures
        header::header_of(data) == Some(Err::<(HeaderView, int), Error>(Error::NotJpeg)) <==> !(
        data.len() >= 2 && data.take(2) == skipping::start_bytes()),
{
    if data.len() >= 2 && data[0] == 0xFF && data[1] == 0xD8 {
        assert(data.take(2) =~= skipping::start_bytes());
        lemma_never_not_jpeg(data, 2, header::blank());
    } else if data.len() >= 2 {
        assert(data.take(2)[0] == data[0] && data.take(2)[1] == data[1]);
    }
}

} // verus!
