//! The entropy-coded data of a file: blocks of coefficients, coding unit by coding unit.
//!
//! As in the header, `None` stands for input that has no reading at all: a table selector out of
//! range, a coefficient beyond 32 bits, or a component too large for its plane to be addressed.
use vstd::arithmetic::power2;
use vstd::prelude::*;

use crate::jpg::amplitude;
use crate::jpg::bits;
use crate::jpg::error::Error;
use crate::jpg::header;
use crate::jpg::header::{Component, Header, HeaderView};
use crate::jpg::huffman;
use crate::jpg::huffman::HTable;
use crate::jpg::reader;
use crate::jpg::reader::BitReader;
use crate::jpg::zigzag;
use crate::jpg::zigzag::ZIGZAG;

verus! {

/// The coefficient that the `t` bits at `p` stand for. Of more than 16 bits the last 16 count.
pub open spec fn amplitude_at(bs: Seq<bool>, p: int, t: int) -> int {
    amplitude::extended(bits::value_at(bs, p, t) % 0x10000, t)
}

/// The rest of a block from place `k` in zigzag order on: the block and the position after it.
/// Each symbol gives a run of zeros and the size of the coefficient behind it; 0x00 ends the
/// block, and 0xF0 stands for sixteen zeros.
pub open spec fn ac_from(
    ac: Seq<(u16, u8, u8)>,
    bs: Seq<bool>,
    p: int,
    k: int,
    block: Seq<i32>,
) -> Result<(Seq<i32>, int), Error>
    decreases 80 - k,
{
    if k >= 64 {
        Ok((block, p))
    } else {
        match huffman::symbol_at(ac, bs, p) {
            Err(e) => Err(e),
            Ok((rs, q)) => if rs == 0x00 {
                Ok((block, q))
            } else if rs == 0xF0 {
                ac_from(ac, bs, q, k + 16, block)
            } else if k + rs / 16 >= 64 {
                Err(Error::BadHuffman)
            } else if q + rs % 16 > bs.len() {
                Err(Error::Truncated)
            } else {
                ac_from(
                    ac,
                    bs,
                    q + rs % 16,
                    k + rs / 16 + 1,
                    block.update(
                        zigzag::ZIGZAG@[k + rs / 16] as int,
                        amplitude_at(bs, q, (rs % 16) as int) as i32,
                    ),
                )
            },
        }
    }
}

/// A block whose first coefficient is `c` and that has no others.
pub open spec fn flat_block(c: i32) -> Seq<i32> {
    Seq::new(64, |n: int| 0i32).update(0, c)
}

/// The block at `p`, in natural order, and the position after it. Its first coefficient is stored
/// as the difference from `pred`.
pub open spec fn block_at(
    dc: Seq<(u16, u8, u8)>,
    ac: Seq<(u16, u8, u8)>,
    bs: Seq<bool>,
    p: int,
    pred: int,
) -> Option<Result<(Seq<i32>, int), Error>> {
    match huffman::symbol_at(dc, bs, p) {
        Err(e) => Some(Err(e)),
        Ok((t, q)) => if q + t > bs.len() {
            Some(Err(Error::Truncated))
        } else if !amplitude::extend_defined(t as int) {
            None
        } else {
            let first = pred + amplitude_at(bs, q, t as int);
            if i32::MIN <= first <= i32::MAX {
                Some(ac_from(ac, bs, q + t, 1, flat_block(first as i32)))
            } else {
                None
            }
        },
    }
}

/// How far a scan has been read: the position, the last first coefficient of each component, and
/// the blocks of each component in the order in which they came.
pub struct ScanState {
    pub p: int,
    pub preds: Seq<int>,
    pub blocks: Seq<Seq<Seq<i32>>>,
}

/// `n` more blocks of component `ci`.
pub open spec fn blocks_from(
    c: Component,
    dc: Seq<(u16, u8, u8)>,
    ac: Seq<(u16, u8, u8)>,
    bs: Seq<bool>,
    s: ScanState,
    ci: int,
    n: int,
) -> Option<Result<ScanState, Error>>
    decreases n,
{
    if n <= 0 {
        Some(Ok(s))
    } else {
        match block_at(dc, ac, bs, s.p, s.preds[ci]) {
            None => None,
            Some(Err(e)) => Some(Err(e)),
            Some(Ok((block, q))) => if c.tq > 3 {
                None
            } else {
                blocks_from(
                    c,
                    dc,
                    ac,
                    bs,
                    ScanState {
                        p: q,
                        preds: s.preds.update(ci, block[0] as int),
                        blocks: s.blocks.update(ci, s.blocks[ci].push(block)),
                    },
                    ci,
                    n - 1,
                )
            },
        }
    }
}

/// The rest of a coding unit: the blocks of the components from `ci` on.
pub open spec fn unit_from(h: HeaderView, bs: Seq<bool>, s: ScanState, ci: int) -> Option<
    Result<ScanState, Error>,
>
    decreases h.comps.len() - ci,
{
    if ci >= h.comps.len() {
        Some(Ok(s))
    } else {
        let c = h.comps[ci];
        if c.dc > 3 {
            None
        } else if h.dc[c.dc as int] is None {
            Some(Err(Error::BadHuffman))
        } else if c.ac > 3 {
            None
        } else if h.ac[c.ac as int] is None {
            Some(Err(Error::BadHuffman))
        } else {
            match blocks_from(
                c,
                h.dc[c.dc as int]->0,
                h.ac[c.ac as int]->0,
                bs,
                s,
                ci,
                c.hs * c.vs,
            ) {
                None => None,
                Some(Err(e)) => Some(Err(e)),
                Some(Ok(next)) => unit_from(h, bs, next, ci + 1),
            }
        }
    }
}

/// `m` more coding units.
pub open spec fn units_from(h: HeaderView, bs: Seq<bool>, s: ScanState, m: int) -> Option<
    Result<ScanState, Error>,
>
    decreases m,
{
    if m <= 0 {
        Some(Ok(s))
    } else {
        match unit_from(h, bs, s, 0) {
            None => None,
            Some(Err(e)) => Some(Err(e)),
            Some(Ok(next)) => units_from(h, bs, next, m - 1),
        }
    }
}

/// The start of a scan.
pub open spec fn scan_start(n: nat) -> ScanState {
    ScanState {
        p: 0,
        preds: Seq::new(n, |i: int| 0int),
        blocks: Seq::new(n, |i: int| Seq::<Seq<i32>>::empty()),
    }
}

/// The most blocks that a component has across a coding unit.
pub open spec fn max_hs(comps: Seq<Component>) -> int
    decreases comps.len(),
{
    if comps.len() == 0 {
        1
    } else if comps.last().hs > max_hs(comps.drop_last()) {
        comps.last().hs as int
    } else {
        max_hs(comps.drop_last())
    }
}

/// The most blocks that a component has down a coding unit.
pub open spec fn max_vs(comps: Seq<Component>) -> int
    decreases comps.len(),
{
    if comps.len() == 0 {
        1
    } else if comps.last().vs > max_vs(comps.drop_last()) {
        comps.last().vs as int
    } else {
        max_vs(comps.drop_last())
    }
}

/// How many pieces of `size` cover `len`.
pub open spec fn pieces(len: int, size: int) -> int {
    (len + size - 1) / size
}

/// Coding units across.
pub open spec fn units_across(h: HeaderView) -> int {
    pieces(h.width, 8 * max_hs(h.comps))
}

/// Coding units down.
pub open spec fn units_down(h: HeaderView) -> int {
    pieces(h.height, 8 * max_vs(h.comps))
}

/// Every component has few enough samples to number them with 32 bits.
pub open spec fn planes_fit(h: HeaderView) -> bool {
    forall|i: int|
        0 <= i < h.comps.len() ==> plane_size(
            units_across(h),
            units_down(h),
            #[trigger] h.comps[i],
        ) <= u32::MAX
}

/// Samples of a component, those that only fill up blocks and units included.
pub open spec fn plane_size(across: int, down: int, c: Component) -> int {
    (across * c.hs * 8) * (down * c.vs * 8)
}

/// A picture as coefficients.
pub struct FrameView {
    pub width: int,
    pub height: int,
    pub comps: Seq<Component>,
    pub quant: Seq<Seq<u16>>,
    pub across: int,
    pub down: int,
    pub blocks: Seq<Seq<Seq<i32>>>,
}

/// The entropy-coded bits of a file from `start` on.
pub open spec fn scan_bits(data: Seq<u8>, start: int) -> Seq<bool> {
    bits::bits_of(reader::entropy_bytes(data.subrange(start, data.len() as int), 0))
}

/// The coefficients that a file holds.
pub open spec fn frame_of(data: Seq<u8>) -> Option<Result<FrameView, Error>> {
    match header::header_of(data) {
        None => None,
        Some(Err(e)) => Some(Err(e)),
        Some(Ok((h, start))) => if h.width == 0 || h.height == 0 || h.comps.len() == 0 {
            Some(Err(Error::Truncated))
        } else if h.comps.len() != 1 && h.comps.len() != 3 {
            Some(Err(Error::Unsupported))
        } else if !planes_fit(h) || start > data.len() {
            None
        } else {
            match units_from(
                h,
                scan_bits(data, start),
                scan_start(h.comps.len()),
                units_across(h) * units_down(h),
            ) {
                None => None,
                Some(Err(e)) => Some(Err(e)),
                Some(Ok(s)) => Some(
                    Ok(
                        FrameView {
                            width: h.width,
                            height: h.height,
                            comps: h.comps,
                            quant: h.quant,
                            across: units_across(h),
                            down: units_down(h),
                            blocks: s.blocks,
                        },
                    ),
                ),
            }
        },
    }
}

/// Reading at a distance inside longer data does not change a symbol.
proof fn lemma_symbol_at(codes: Seq<(u16, u8, u8)>, bs: Seq<bool>, p: int)
    requires
        0 <= p <= bs.len(),
    ensures
        huffman::symbol_at(codes, bs.skip(p), 0) == match huffman::symbol_at(codes, bs, p) {
            Ok((s, q)) => Ok((s, q - p)),
            Err(e) => Err(e),
        },
        huffman::symbol_at(codes, bs, p) matches Ok((s, q)) ==> p < q <= bs.len(),
{
    huffman::lemma_symbol_shift(codes, bs, p, 0, 1);
    lemma_symbol_moves(codes, bs, p, 1);
}

proof fn lemma_symbol_moves(codes: Seq<(u16, u8, u8)>, bs: Seq<bool>, p: int, len: int)
    requires
        1 <= len,
    ensures
        huffman::symbol_from(codes, bs, p, len) matches Ok((s, q)) ==> p + len <= q <= bs.len(),
    decreases 17 - len,
{
    if len <= 16 {
        lemma_symbol_moves(codes, bs, p, len + 1);
    }
}

/// A number read at a distance, and how large it can be.
proof fn lemma_number_at(bs: Seq<bool>, p: int, n: int)
    requires
        0 <= p,
        0 <= n,
        p + n <= bs.len(),
    ensures
        bits::value_at(bs.skip(p), 0, n) == bits::value_at(bs, p, n),
        0 <= bits::value_at(bs, p, n),
{
    bits::lemma_value_same(bs.skip(p), 0, bs, p, n);
    bits::lemma_value_range(bs, p, n);
}

/// Reads the coefficients of a block behind the first.
fn read_ac(
    ac: &HTable,
    br: &mut BitReader,
    first: i32,
    Ghost(bs): Ghost<Seq<bool>>,
    Ghost(p): Ghost<int>,
) -> (r: Result<[i32; 64], Error>)
    requires
        old(br).wf(),
        0 <= p <= bs.len(),
        old(br)@ == bs.skip(p),
    ensures
        final(br).wf(),
        match ac_from(ac@, bs, p, 1, flat_block(first)) {
            Err(e) => r == Err::<[i32; 64], Error>(e),
            Ok((block, q)) => r matches Ok(b) && b@ == block && p <= q <= bs.len() && final(br)@
                == bs.skip(q),
        },
{
    let mut zz = [0i32; 64];
    zz[0] = first;
    let mut k: usize = 1;
    let ghost mut at = p;
    assert(zz@ =~= flat_block(first));
    while k < 64
        invariant
            br.wf(),
            k <= 79,
            0 <= p <= at <= bs.len(),
            br@ == bs.skip(at),
            ac_from(ac@, bs, p, 1, flat_block(first)) == ac_from(ac@, bs, at, k as int, zz@),
        decreases 80 - k,
    {
        proof {
            lemma_symbol_at(ac@, bs, at);
        }
        let rs: u8 = match ac.decode(br) {
            Err(e) => {
                return Err(e);
            },
            Ok(rs) => rs,
        };
        let ghost q = huffman::symbol_at(ac@, bs, at)->Ok_0.1;
        assert(br@ =~= bs.skip(q));
        if rs == 0x00 {
            return Ok(zz);
        }
        if rs == 0xF0 {
            k += 16;
            proof {
                at = q;
            }
            continue;
        }
        let run: usize = (rs / 16) as usize;
        let s: u8 = rs % 16;
        k += run;
        if k >= 64 {
            return Err(Error::BadHuffman);
        }
        let v: u16 = match br.bits(s) {
            None => {
                return Err(Error::Truncated);
            },
            Some(v) => v,
        };
        proof {
            lemma_number_at(bs, q, s as int);
            zigzag::law_zigzag_is_permutation();
            assert(br@ =~= bs.skip(q + s));
            assert(ZIGZAG@[k as int] < 64);
        }
        zz[ZIGZAG[k]] = amplitude::extend(v, s);
        k += 1;
        proof {
            at = q + s;
        }
    }
    Ok(zz)
}

/// Reads one block.
fn read_block(
    dc: &HTable,
    ac: &HTable,
    br: &mut BitReader,
    pred: i32,
    Ghost(bs): Ghost<Seq<bool>>,
    Ghost(p): Ghost<int>,
) -> (r: Option<Result<[i32; 64], Error>>)
    requires
        old(br).wf(),
        0 <= p <= bs.len(),
        old(br)@ == bs.skip(p),
    ensures
        final(br).wf(),
        match block_at(dc@, ac@, bs, p, pred as int) {
            None => r is None,
            Some(Err(e)) => r == Some(Err::<[i32; 64], Error>(e)),
            Some(Ok((block, q))) => r matches Some(Ok(b)) && b@ == block && p <= q <= bs.len()
                && final(br)@ == bs.skip(q),
        },
{
    proof {
        lemma_symbol_at(dc@, bs, p);
    }
    let t: u8 = match dc.decode(br) {
        Err(e) => {
            return Some(Err(e));
        },
        Ok(t) => t,
    };
    let ghost q = huffman::symbol_at(dc@, bs, p)->Ok_0.1;
    assert(br@ =~= bs.skip(q));
    let v: u16 = match br.bits(t) {
        None => {
            return Some(Err(Error::Truncated));
        },
        Some(v) => v,
    };
    proof {
        lemma_number_at(bs, q, t as int);
        assert(br@ =~= bs.skip(q + t));
    }
    if !(t <= 30 || t == 32) {
        return None;
    }
    let diff: i32 = amplitude::extend(v, t);
    let first: i64 = pred as i64 + diff as i64;
    if first < i32::MIN as i64 || first > i32::MAX as i64 {
        return None;
    }
    Some(read_ac(ac, br, first as i32, Ghost(bs), Ghost(q + t)))
}

/// The coefficients of each block of each component.
pub open spec fn deep_blocks(blocks: Seq<Vec<[i32; 64]>>) -> Seq<Seq<Seq<i32>>> {
    Seq::new(blocks.len(), |i: int| Seq::new(blocks[i]@.len(), |j: int| blocks[i]@[j]@))
}

/// Reads the blocks of one component in a coding unit.
fn read_blocks(
    c: Component,
    ci: usize,
    dc: &HTable,
    ac: &HTable,
    br: &mut BitReader,
    preds: &mut [i32; 4],
    blocks: &mut Vec<Vec<[i32; 64]>>,
    Ghost(bs): Ghost<Seq<bool>>,
    Ghost(s): Ghost<ScanState>,
) -> (r: Option<Result<(), Error>>)
    requires
        old(br).wf(),
        0 <= s.p <= bs.len(),
        old(br)@ == bs.skip(s.p),
        ci < s.preds.len() == s.blocks.len() <= 4,
        forall|i: int| 0 <= i < s.preds.len() ==> old(preds)@[i] == s.preds[i],
        deep_blocks(old(blocks)@) == s.blocks,
    ensures
        final(br).wf(),
        match blocks_from(c, dc@, ac@, bs, s, ci as int, c.hs * c.vs) {
            None => r is None,
            Some(Err(e)) => r == Some(Err::<(), Error>(e)),
            Some(Ok(t)) => {
                &&& r == Some(Ok::<(), Error>(()))
                &&& 0 <= t.p <= bs.len()
                &&& final(br)@ == bs.skip(t.p)
                &&& t.preds.len() == t.blocks.len() == s.preds.len()
                &&& forall|i: int| 0 <= i < t.preds.len() ==> final(preds)@[i] == t.preds[i]
                &&& deep_blocks(final(blocks)@) == t.blocks
            },
        },
{
    assert(c.hs * c.vs <= 255 * 255) by (nonlinear_arith)
        requires
            c.hs <= 255,
            c.vs <= 255,
    ;
    let n: u32 = c.hs as u32 * c.vs as u32;
    let mut k: u32 = 0;
    let ghost mut t = s;
    while k < n
        invariant
            k <= n,
            n == c.hs * c.vs,
            br.wf(),
            0 <= t.p <= bs.len(),
            br@ == bs.skip(t.p),
            ci < t.preds.len() == t.blocks.len() == s.preds.len() <= 4,
            forall|i: int| 0 <= i < t.preds.len() ==> preds@[i] == t.preds[i],
            deep_blocks(blocks@) == t.blocks,
            blocks_from(c, dc@, ac@, bs, s, ci as int, c.hs * c.vs) == blocks_from(
                c,
                dc@,
                ac@,
                bs,
                t,
                ci as int,
                n - k,
            ),
        decreases n - k,
    {
        let b: [i32; 64] = match read_block(dc, ac, br, preds[ci], Ghost(bs), Ghost(t.p)) {
            None => {
                return None;
            },
            Some(Err(e)) => {
                return Some(Err(e));
            },
            Some(Ok(b)) => b,
        };
        if c.tq > 3 {
            return None;
        }
        preds[ci] = b[0];
        let ghost before = blocks@;
        assert(blocks@.len() == deep_blocks(blocks@).len());
        blocks[ci].push(b);
        proof {
            let (block, q) = block_at(dc@, ac@, bs, t.p, t.preds[ci as int])->0->Ok_0;
            t = ScanState {
                p: q,
                preds: t.preds.update(ci as int, block[0] as int),
                blocks: t.blocks.update(ci as int, t.blocks[ci as int].push(block)),
            };
            assert forall|i: int| 0 <= i < blocks@.len() implies deep_blocks(blocks@)[i]
                == t.blocks[i] by {
                assert(deep_blocks(before)[i] =~= Seq::new(
                    before[i]@.len(),
                    |j: int| before[i]@[j]@,
                ));
                assert(deep_blocks(blocks@)[i] =~= t.blocks[i]);
            }
            assert(deep_blocks(blocks@) =~= t.blocks);
        }
        k += 1;
    }
    Some(Ok(()))
}

/// Reads `units` coding units.
fn read_units(
    h: &Header,
    br: &mut BitReader,
    units: u32,
    Ghost(bs): Ghost<Seq<bool>>,
) -> (r: Option<Result<Vec<Vec<[i32; 64]>>, Error>>)
    requires
        old(br).wf(),
        old(br)@ == bs,
        1 <= h@.comps.len() <= 3,
    ensures
        match units_from(h@, bs, scan_start(h@.comps.len()), units as int) {
            None => r is None,
            Some(Err(e)) => r == Some(Err::<Vec<Vec<[i32; 64]>>, Error>(e)),
            Some(Ok(t)) => r matches Some(Ok(blocks)) && deep_blocks(blocks@) == t.blocks,
        },
{
    let nc: usize = h.comps.len();
    let mut preds = [0i32; 4];
    let mut blocks: Vec<Vec<[i32; 64]>> = Vec::new();
    let ghost start = scan_start(h@.comps.len());
    let mut i: usize = 0;
    while i < nc
        invariant
            i <= nc,
            blocks@.len() == i,
            forall|j: int| 0 <= j < i ==> (#[trigger] blocks@[j])@.len() == 0,
        decreases nc - i,
    {
        blocks.push(Vec::new());
        i += 1;
    }
    let ghost mut s = start;
    proof {
        assert(bs.skip(0) =~= bs);
        assert forall|j: int| 0 <= j < nc implies deep_blocks(blocks@)[j] == start.blocks[j] by {
            assert(deep_blocks(blocks@)[j] =~= start.blocks[j]);
        }
        assert(deep_blocks(blocks@) =~= start.blocks);
    }
    let mut m: u32 = 0;
    while m < units
        invariant
            m <= units,
            nc == h@.comps.len(),
            nc == h.comps@.len(),
            1 <= nc <= 3,
            br.wf(),
            0 <= s.p <= bs.len(),
            br@ == bs.skip(s.p),
            s.preds.len() == s.blocks.len() == nc,
            forall|i: int| 0 <= i < s.preds.len() ==> preds@[i] == s.preds[i],
            deep_blocks(blocks@) == s.blocks,
            units_from(h@, bs, start, units as int) == units_from(h@, bs, s, units - m),
            start == scan_start(h@.comps.len()),
        decreases units - m,
    {
        let ghost first = s;
        let mut ci: usize = 0;
        while ci < nc
            invariant
                ci <= nc,
                m < units,
                nc == h@.comps.len(),
                nc == h.comps@.len(),
                1 <= nc <= 3,
                br.wf(),
                0 <= s.p <= bs.len(),
                br@ == bs.skip(s.p),
                s.preds.len() == s.blocks.len() == nc,
                forall|i: int| 0 <= i < s.preds.len() ==> preds@[i] == s.preds[i],
                deep_blocks(blocks@) == s.blocks,
                units_from(h@, bs, start, units as int) == units_from(h@, bs, first, units - m),
                unit_from(h@, bs, first, 0) == unit_from(h@, bs, s, ci as int),
                start == scan_start(h@.comps.len()),
            decreases nc - ci,
        {
            let c: Component = h.comps[ci];
            if c.dc > 3 {
                return None;
            }
            let dc: &HTable = match &h.dc[c.dc as usize] {
                None => {
                    return Some(Err(Error::BadHuffman));
                },
                Some(t) => t,
            };
            if c.ac > 3 {
                return None;
            }
            let ac: &HTable = match &h.ac[c.ac as usize] {
                None => {
                    return Some(Err(Error::BadHuffman));
                },
                Some(t) => t,
            };
            assert(h@.comps[ci as int] == c);
            assert(h@.dc[c.dc as int] == Some(dc@));
            assert(h@.ac[c.ac as int] == Some(ac@));
            match read_blocks(
                c,
                ci,
                dc,
                ac,
                br,
                &mut preds,
                &mut blocks,
                Ghost(bs),
                Ghost(s),
            ) {
                None => {
                    return None;
                },
                Some(Err(e)) => {
                    return Some(Err(e));
                },
                Some(Ok(_)) => {},
            }
            proof {
                s = blocks_from(c, dc@, ac@, bs, s, ci as int, c.hs * c.vs)->0->Ok_0;
            }
            ci += 1;
        }
        m += 1;
    }
    Some(Ok(blocks))
}

/// A picture as coefficients.
pub struct Frame {
    pub width: u32,
    pub height: u32,
    pub comps: Vec<Component>,
    pub quant: [[u16; 64]; 4],
    /// Coding units across.
    pub across: u32,
    /// Coding units down.
    pub down: u32,
    /// For each component its blocks, coding unit by coding unit.
    pub blocks: Vec<Vec<[i32; 64]>>,
}

impl Frame {
    pub open spec fn view(&self) -> FrameView {
        FrameView {
            width: self.width as int,
            height: self.height as int,
            comps: self.comps@,
            quant: Seq::new(4, |i: int| self.quant@[i]@),
            across: self.across as int,
            down: self.down as int,
            blocks: deep_blocks(self.blocks@),
        }
    }
}

proof fn lemma_max_range(comps: Seq<Component>)
    requires
        forall|i: int| 0 <= i < comps.len() ==> (#[trigger] comps[i]).hs <= 15 && comps[i].vs <= 15,
    ensures
        1 <= max_hs(comps) <= 15,
        1 <= max_vs(comps) <= 15,
        forall|i: int|
            0 <= i < comps.len() ==> (#[trigger] comps[i]).hs <= max_hs(comps) && comps[i].vs
                <= max_vs(comps),
    decreases comps.len(),
{
    if comps.len() > 0 {
        lemma_max_range(comps.drop_last());
        assert forall|i: int| 0 <= i < comps.len() implies (#[trigger] comps[i]).hs <= max_hs(comps)
            && comps[i].vs <= max_vs(comps) by {
            if i < comps.len() - 1 {
                assert(comps.drop_last()[i] == comps[i]);
            }
        }
    }
}

/// How many units there are, and how large a plane is.
proof fn lemma_unit_range(h: HeaderView)
    requires
        header::header_wf(h),
        h.width >= 1,
        h.height >= 1,
    ensures
        1 <= max_hs(h.comps) <= 15,
        1 <= max_vs(h.comps) <= 15,
        1 <= units_across(h) <= 8192,
        1 <= units_down(h) <= 8192,
        h.width <= units_across(h) * (8 * max_hs(h.comps)) < h.width + 8 * max_hs(h.comps),
        h.height <= units_down(h) * (8 * max_vs(h.comps)) < h.height + 8 * max_vs(h.comps),
        1 <= units_across(h) * units_down(h) <= 8192 * 8192,
{
    lemma_max_range(h.comps);
    lemma_pieces(h.width, 8 * max_hs(h.comps));
    lemma_pieces(h.height, 8 * max_vs(h.comps));
    let a = units_across(h);
    let d = units_down(h);
    assert(1 <= a * d <= 8192 * 8192) by (nonlinear_arith)
        requires
            1 <= a <= 8192,
            1 <= d <= 8192,
    ;
}

/// Pieces cover a length, and the last one is needed.
pub proof fn lemma_pieces(len: int, size: int)
    requires
        1 <= len <= 0xFFFF,
        8 <= size,
    ensures
        1 <= pieces(len, size) <= 8192,
        len <= pieces(len, size) * size < len + size,
{
    let n = pieces(len, size);
    let x = len + size - 1;
    vstd::arithmetic::div_mod::lemma_fundamental_div_mod(x, size);
    vstd::arithmetic::div_mod::lemma_mod_bound(x, size);
    assert(size * n == n * size) by (nonlinear_arith);
    assert(n >= 1) by (nonlinear_arith)
        requires
            n * size >= 1,
            size >= 8,
    ;
    assert(n <= 8192) by (nonlinear_arith)
        requires
            n * size < 0xFFFF + size,
            size >= 8,
    ;
}

/// Reads the coefficients of a file. `None` stands for a file that has no reading at all.
pub fn read_frame(data: &[u8]) -> (r: Option<Result<Frame, Error>>)
    ensures
        match frame_of(data@) {
            None => r is None,
            Some(Err(e)) => r == Some(Err::<Frame, Error>(e)),
            Some(Ok(f)) => r matches Some(Ok(g)) && g@ == f,
        },
{
    let (h, start): (Header, usize) = match header::read_header(data) {
        None => {
            return None;
        },
        Some(Err(e)) => {
            return Some(Err(e));
        },
        Some(Ok(hs)) => hs,
    };
    proof {
        header::law_header_wf(data@);
    }
    if h.width == 0 || h.height == 0 || h.comps.len() == 0 {
        return Some(Err(Error::Truncated));
    }
    if h.comps.len() != 1 && h.comps.len() != 3 {
        return Some(Err(Error::Unsupported));
    }
    let mut hmax: u8 = 1;
    let mut vmax: u8 = 1;
    let mut i: usize = 0;
    while i < h.comps.len()
        invariant
            i <= h.comps@.len(),
            hmax == max_hs(h.comps@.take(i as int)),
            vmax == max_vs(h.comps@.take(i as int)),
        decreases h.comps@.len() - i,
    {
        assert(h.comps@.take(i + 1).drop_last() =~= h.comps@.take(i as int));
        if h.comps[i].hs > hmax {
            hmax = h.comps[i].hs;
        }
        if h.comps[i].vs > vmax {
            vmax = h.comps[i].vs;
        }
        i += 1;
    }
    assert(h.comps@.take(i as int) =~= h.comps@);
    proof {
        lemma_unit_range(h@);
    }
    let mcu_w: u32 = hmax as u32 * 8;
    let mcu_h: u32 = vmax as u32 * 8;
    let across: u32 = (h.width + mcu_w - 1) / mcu_w;
    let down: u32 = (h.height + mcu_h - 1) / mcu_h;
    assert(across == units_across(h@));
    assert(down == units_down(h@));
    let mut j: usize = 0;
    while j < h.comps.len()
        invariant
            j <= h.comps@.len(),
            header::header_of(data@) == Some(Ok::<_, Error>((h@, start as int))),
            h.width != 0 && h.height != 0,
            h.comps@.len() == 1 || h.comps@.len() == 3,
            header::header_wf(h@),
            1 <= across <= 8192,
            1 <= down <= 8192,
            across == units_across(h@),
            down == units_down(h@),
            forall|k: int|
                0 <= k < j ==> plane_size(
                    units_across(h@),
                    units_down(h@),
                    #[trigger] h@.comps[k],
                ) <= u32::MAX,
        decreases h.comps@.len() - j,
    {
        let c: Component = h.comps[j];
        assert(h@.comps[j as int] == c);
        assert(across * c.hs <= 8192 * 15 && down * c.vs <= 8192 * 15) by (nonlinear_arith)
            requires
                across <= 8192,
                down <= 8192,
                c.hs <= 15,
                c.vs <= 15,
        ;
        let cw: u64 = across as u64 * c.hs as u64 * 8;
        let ch: u64 = down as u64 * c.vs as u64 * 8;
        assert(cw * ch <= 983040 * 983040) by (nonlinear_arith)
            requires
                cw <= 983040,
                ch <= 983040,
        ;
        if cw * ch > u32::MAX as u64 {
            assert(plane_size(units_across(h@), units_down(h@), h@.comps[j as int]) > u32::MAX);
            return None;
        }
        j += 1;
    }
    if start > data.len() {
        return None;
    }
    let mut br = BitReader::new(&data[start..data.len()]);
    let ghost bs = scan_bits(data@, start as int);
    match read_units(&h, &mut br, across * down, Ghost(bs)) {
        None => None,
        Some(Err(e)) => Some(Err(e)),
        Some(Ok(blocks)) => {
            let Header { width, height, comps, quant, .. } = h;
            Some(Ok(Frame { width, height, comps, quant, across, down, blocks }))
        },
    }
}

/// A frame fits together: every component has its blocks, a table to dequantize them, and few
/// enough samples to number them with 32 bits.
pub open spec fn frame_wf(f: FrameView) -> bool {
    &&& 1 <= f.width <= 0xFFFF
    &&& 1 <= f.height <= 0xFFFF
    &&& f.comps.len() == 1 || f.comps.len() == 3
    &&& f.across == pieces(f.width, 8 * max_hs(f.comps))
    &&& f.down == pieces(f.height, 8 * max_vs(f.comps))
    &&& 1 <= f.across <= 8192
    &&& 1 <= f.down <= 8192
    &&& f.quant.len() == 4
    &&& forall|i: int| 0 <= i < 4 ==> (#[trigger] f.quant[i]).len() == 64
    &&& f.blocks.len() == f.comps.len()
    &&& forall|i: int| 0 <= i < f.comps.len() ==> comp_wf(f, i)
}

/// One component of a frame fits together with the rest.
pub open spec fn comp_wf(f: FrameView, i: int) -> bool {
    let c = f.comps[i];
    &&& c.hs <= 15
    &&& c.vs <= 15
    &&& f.blocks[i].len() == f.across * f.down * (c.hs * c.vs)
    &&& f.blocks[i].len() > 0 ==> c.tq <= 3
    &&& plane_size(f.across, f.down, c) <= u32::MAX
    &&& forall|j: int| 0 <= j < f.blocks[i].len() ==> (#[trigger] f.blocks[i][j]).len() == 64
}

proof fn lemma_ac_len(ac: Seq<(u16, u8, u8)>, bs: Seq<bool>, p: int, k: int, block: Seq<i32>)
    requires
        1 <= k,
        block.len() == 64,
    ensures
        ac_from(ac, bs, p, k, block) matches Ok((b, q)) ==> b.len() == 64 && b[0] == block[0],
    decreases 80 - k,
{
    if k < 64 {
        if huffman::symbol_at(ac, bs, p) is Ok {
            let (rs, q) = huffman::symbol_at(ac, bs, p)->Ok_0;
            if rs == 0xF0 {
                lemma_ac_len(ac, bs, q, k + 16, block);
            } else if rs != 0 && k + rs / 16 < 64 && q + rs % 16 <= bs.len() {
                zigzag::law_zigzag_is_permutation();
                let z = zigzag::ZIGZAG@[k + rs / 16] as int;
                assert(zigzag::PLACE@[z] == k + rs / 16);
                assert(zigzag::PLACE@[0] == 0);
                lemma_ac_len(
                    ac,
                    bs,
                    q + rs % 16,
                    k + rs / 16 + 1,
                    block.update(z, amplitude_at(bs, q, (rs % 16) as int) as i32),
                );
            }
        }
    }
}

/// Blocks of one component: as many as were asked for, and nothing else changes.
proof fn lemma_blocks_wf(
    c: Component,
    dc: Seq<(u16, u8, u8)>,
    ac: Seq<(u16, u8, u8)>,
    bs: Seq<bool>,
    s: ScanState,
    ci: int,
    n: int,
)
    requires
        0 <= ci < s.blocks.len(),
        0 <= n,
        forall|i: int, j: int|
            0 <= i < s.blocks.len() && 0 <= j < s.blocks[i].len() ==> (
            #[trigger] s.blocks[i][j]).len() == 64,
    ensures
        blocks_from(c, dc, ac, bs, s, ci, n) matches Some(Ok(t)) ==> {
            &&& t.blocks.len() == s.blocks.len()
            &&& t.blocks[ci].len() == s.blocks[ci].len() + n
            &&& n > 0 ==> c.tq <= 3
            &&& forall|i: int|
                0 <= i < s.blocks.len() && i != ci ==> #[trigger] t.blocks[i] == s.blocks[i]
            &&& forall|i: int, j: int|
                0 <= i < t.blocks.len() && 0 <= j < t.blocks[i].len() ==> (
                #[trigger] t.blocks[i][j]).len() == 64
        },
    decreases n,
{
    if n > 0 {
        if block_at(dc, ac, bs, s.p, s.preds[ci]) is Some && block_at(
            dc,
            ac,
            bs,
            s.p,
            s.preds[ci],
        )->0 is Ok && c.tq <= 3 {
            let (block, q) = block_at(dc, ac, bs, s.p, s.preds[ci])->0->Ok_0;
            let (t, q0) = huffman::symbol_at(dc, bs, s.p)->Ok_0;
            let first = (s.preds[ci] + amplitude_at(bs, q0, t as int)) as i32;
            lemma_ac_len(ac, bs, q0 + t, 1, flat_block(first));
            let next = ScanState {
                p: q,
                preds: s.preds.update(ci, block[0] as int),
                blocks: s.blocks.update(ci, s.blocks[ci].push(block)),
            };
            assert forall|i: int, j: int|
                0 <= i < next.blocks.len() && 0 <= j < next.blocks[i].len() implies (
            #[trigger] next.blocks[i][j]).len() == 64 by {
                if i == ci && j == s.blocks[ci].len() {
                } else {
                    assert(next.blocks[i][j] == s.blocks[i][j]);
                }
            }
            lemma_blocks_wf(c, dc, ac, bs, next, ci, n - 1);
        }
    }
}

proof fn lemma_unit_wf(h: HeaderView, bs: Seq<bool>, s: ScanState, ci: int)
    requires
        0 <= ci <= h.comps.len() == s.blocks.len(),
        forall|i: int, j: int|
            0 <= i < s.blocks.len() && 0 <= j < s.blocks[i].len() ==> (
            #[trigger] s.blocks[i][j]).len() == 64,
    ensures
        unit_from(h, bs, s, ci) matches Some(Ok(t)) ==> {
            &&& t.blocks.len() == s.blocks.len()
            &&& forall|i: int|
                0 <= i < ci ==> #[trigger] t.blocks[i] == s.blocks[i]
            &&& forall|i: int|
                ci <= i < s.blocks.len() ==> {
                    &&& (#[trigger] t.blocks[i]).len() == s.blocks[i].len() + h.comps[i].hs
                        * h.comps[i].vs
                    &&& h.comps[i].hs * h.comps[i].vs > 0 ==> h.comps[i].tq <= 3
                }
            &&& forall|i: int, j: int|
                0 <= i < t.blocks.len() && 0 <= j < t.blocks[i].len() ==> (
                #[trigger] t.blocks[i][j]).len() == 64
        },
    decreases h.comps.len() - ci,
{
    if ci < h.comps.len() && unit_from(h, bs, s, ci) is Some && unit_from(h, bs, s, ci)->0 is Ok {
        let c = h.comps[ci];
        let dc = h.dc[c.dc as int]->0;
        let ac = h.ac[c.ac as int]->0;
        assert(0 <= c.hs * c.vs) by (nonlinear_arith)
            requires
                0 <= c.hs,
                0 <= c.vs,
        ;
        lemma_blocks_wf(c, dc, ac, bs, s, ci, c.hs * c.vs);
        let next = blocks_from(c, dc, ac, bs, s, ci, c.hs * c.vs)->0->Ok_0;
        lemma_unit_wf(h, bs, next, ci + 1);
        let t = unit_from(h, bs, s, ci)->0->Ok_0;
        assert forall|i: int| 0 <= i < ci implies #[trigger] t.blocks[i] == s.blocks[i] by {
            assert(next.blocks[i] == s.blocks[i]);
        }
        assert forall|i: int| ci <= i < s.blocks.len() implies (#[trigger] t.blocks[i]).len()
            == s.blocks[i].len() + h.comps[i].hs * h.comps[i].vs && (h.comps[i].hs * h.comps[i].vs
            > 0 ==> h.comps[i].tq <= 3) by {
            if i == ci {
                assert(t.blocks[i] == next.blocks[i]);
            } else {
                assert(next.blocks[i] == s.blocks[i]);
            }
        }
    }
}

proof fn lemma_units_wf(h: HeaderView, bs: Seq<bool>, s: ScanState, m: int)
    requires
        h.comps.len() == s.blocks.len(),
        0 <= m,
        forall|i: int, j: int|
            0 <= i < s.blocks.len() && 0 <= j < s.blocks[i].len() ==> (
            #[trigger] s.blocks[i][j]).len() == 64,
    ensures
        units_from(h, bs, s, m) matches Some(Ok(t)) ==> {
            &&& t.blocks.len() == s.blocks.len()
            &&& forall|i: int|
                0 <= i < s.blocks.len() ==> {
                    &&& (#[trigger] t.blocks[i]).len() == s.blocks[i].len() + m * (h.comps[i].hs
                        * h.comps[i].vs)
                    &&& m > 0 && h.comps[i].hs * h.comps[i].vs > 0 ==> h.comps[i].tq <= 3
                }
            &&& forall|i: int, j: int|
                0 <= i < t.blocks.len() && 0 <= j < t.blocks[i].len() ==> (
                #[trigger] t.blocks[i][j]).len() == 64
        },
    decreases m,
{
    if m > 0 {
        lemma_unit_wf(h, bs, s, 0);
        if units_from(h, bs, s, m) is Some && units_from(h, bs, s, m)->0 is Ok {
            let next = unit_from(h, bs, s, 0)->0->Ok_0;
            lemma_units_wf(h, bs, next, m - 1);
            let t = units_from(h, bs, s, m)->0->Ok_0;
            assert forall|i: int| 0 <= i < s.blocks.len() implies (#[trigger] t.blocks[i]).len()
                == s.blocks[i].len() + m * (h.comps[i].hs * h.comps[i].vs) && (m > 0
                && h.comps[i].hs * h.comps[i].vs > 0 ==> h.comps[i].tq <= 3) by {
                let n = h.comps[i].hs * h.comps[i].vs;
                assert(next.blocks[i].len() == s.blocks[i].len() + n);
                assert(m * n == (m - 1) * n + n) by (nonlinear_arith);
            }
        }
    } else {
        assert forall|i: int| 0 <= i < s.blocks.len() implies m * (h.comps[i].hs * h.comps[i].vs)
            == 0 by {
            let n = h.comps[i].hs * h.comps[i].vs;
            assert(0 * n == 0);
        }
    }
}

/// Every frame that is read fits together.
pub proof fn law_frame_wf(data: Seq<u8>)
    ensures
        frame_of(data) matches Some(Ok(f)) ==> frame_wf(f),
{
    header::law_header_wf(data);
    if frame_of(data) is Some && frame_of(data)->0 is Ok {
        let f = frame_of(data)->0->Ok_0;
        let (h, start) = header::header_of(data)->0->Ok_0;
        lemma_unit_range(h);
        let m = units_across(h) * units_down(h);
        lemma_units_wf(h, scan_bits(data, start), scan_start(h.comps.len()), m);
        assert forall|i: int| 0 <= i < f.comps.len() implies comp_wf(f, i) by {
            let c = h.comps[i];
            let n = c.hs * c.vs;
            assert(f.blocks[i].len() == m * n);
            assert(m * n > 0 ==> n > 0) by (nonlinear_arith)
                requires
                    m > 0,
            ;
            assert(plane_size(f.across, f.down, h.comps[i]) <= u32::MAX);
        }
    }
}

/// Blocks of a component are read one after the other, each with the one before it for its
/// prediction, however they are grouped.
pub proof fn law_blocks_in_turn(
    c: Component,
    dc: Seq<(u16, u8, u8)>,
    ac: Seq<(u16, u8, u8)>,
    bs: Seq<bool>,
    s: ScanState,
    ci: int,
    m: int,
    n: int,
)
    requires
        0 <= m,
        0 <= n,
    ensures
        blocks_from(c, dc, ac, bs, s, ci, m + n) == match blocks_from(c, dc, ac, bs, s, ci, m) {
            Some(Ok(t)) => blocks_from(c, dc, ac, bs, t, ci, n),
            r => r,
        },
    decreases m,
{
    if m > 0 {
        if let Some(Ok((block, q))) = block_at(dc, ac, bs, s.p, s.preds[ci]) {
            let next = ScanState {
                p: q,
                preds: s.preds.update(ci, block[0] as int),
                blocks: s.blocks.update(ci, s.blocks[ci].push(block)),
            };
            law_blocks_in_turn(c, dc, ac, bs, next, ci, m - 1, n);
        }
    }
}

/// Coding units are read one after the other, however they are grouped.
pub proof fn law_units_in_turn(h: HeaderView, bs: Seq<bool>, s: ScanState, m: int, n: int)
    requires
        0 <= m,
        0 <= n,
    ensures
        units_from(h, bs, s, m + n) == match units_from(h, bs, s, m) {
            Some(Ok(t)) => units_from(h, bs, t, n),
            r => r,
        },
    decreases m,
{
    if m > 0 {
        if let Some(Ok(next)) = unit_from(h, bs, s, 0) {
            law_units_in_turn(h, bs, next, m - 1, n);
        }
    }
}

/// One block of a component: it is the last of its component afterwards, its first coefficient is
/// the prediction for the next, and the other components stay as they were.
pub proof fn law_one_block(
    c: Component,
    dc: Seq<(u16, u8, u8)>,
    ac: Seq<(u16, u8, u8)>,
    bs: Seq<bool>,
    s: ScanState,
    ci: int,
)
    requires
        0 <= ci < s.blocks.len() == s.preds.len(),
    ensures
        blocks_from(c, dc, ac, bs, s, ci, 1) matches Some(Ok(t)) ==> {
            &&& block_at(dc, ac, bs, s.p, s.preds[ci]) == Some(
                Ok::<(Seq<i32>, int), Error>((t.blocks[ci].last(), t.p)),
            )
            &&& t.blocks.len() == s.blocks.len() && t.preds.len() == s.preds.len()
            &&& t.blocks[ci].len() == s.blocks[ci].len() + 1
            &&& t.blocks[ci].drop_last() == s.blocks[ci]
            &&& t.preds[ci] == t.blocks[ci].last()[0]
            &&& forall|i: int|
                0 <= i < s.blocks.len() && i != ci ==> #[trigger] t.blocks[i] == s.blocks[i]
                    && t.preds[i] == s.preds[i]
        },
{
    reveal_with_fuel(blocks_from, 2);
    if let Some(Ok((block, q))) = block_at(dc, ac, bs, s.p, s.preds[ci]) {
        assert(s.blocks[ci].push(block).drop_last() =~= s.blocks[ci]);
    }
}

/// Two components are described the same but for the numbers of their Huffman tables, and those
/// tables are the same.
pub open spec fn same_tables(h: HeaderView, g: HeaderView, i: int) -> bool {
    let c = h.comps[i];
    let d = g.comps[i];
    &&& c.hs == d.hs && c.vs == d.vs && c.tq == d.tq
    &&& c.dc <= 3 && c.ac <= 3 && d.dc <= 3 && d.ac <= 3
    &&& h.dc[c.dc as int] == g.dc[d.dc as int]
    &&& h.ac[c.ac as int] == g.ac[d.ac as int]
}

/// A block does not depend on how the component that it belongs to is numbered.
proof fn lemma_same_blocks(
    c: Component,
    d: Component,
    dc: Seq<(u16, u8, u8)>,
    ac: Seq<(u16, u8, u8)>,
    bs: Seq<bool>,
    s: ScanState,
    ci: int,
    n: int,
)
    requires
        c.tq == d.tq,
    ensures
        blocks_from(c, dc, ac, bs, s, ci, n) == blocks_from(d, dc, ac, bs, s, ci, n),
    decreases n,
{
    if n > 0 {
        if let Some(Ok((block, q))) = block_at(dc, ac, bs, s.p, s.preds[ci]) {
            let next = ScanState {
                p: q,
                preds: s.preds.update(ci, block[0] as int),
                blocks: s.blocks.update(ci, s.blocks[ci].push(block)),
            };
            lemma_same_blocks(c, d, dc, ac, bs, next, ci, n - 1);
        }
    }
}

proof fn lemma_same_unit(h: HeaderView, g: HeaderView, bs: Seq<bool>, s: ScanState, ci: int)
    requires
        h.comps.len() == g.comps.len(),
        forall|i: int| 0 <= i < h.comps.len() ==> same_tables(h, g, i),
        0 <= ci,
    ensures
        unit_from(h, bs, s, ci) == unit_from(g, bs, s, ci),
    decreases h.comps.len() - ci,
{
    if ci < h.comps.len() {
        assert(same_tables(h, g, ci));
        let c = h.comps[ci];
        let d = g.comps[ci];
        let dc = h.dc[c.dc as int]->0;
        let ac = h.ac[c.ac as int]->0;
        lemma_same_blocks(c, d, dc, ac, bs, s, ci, c.hs * c.vs);
        if let Some(Ok(next)) = blocks_from(c, dc, ac, bs, s, ci, c.hs * c.vs) {
            lemma_same_unit(h, g, bs, next, ci + 1);
        }
    }
}

/// A component is read with the Huffman tables whose numbers it has, that for first coefficients
/// and that for the others: putting the tables in other slots and giving the components the new
/// numbers changes nothing.
pub proof fn law_tables_by_number(
    h: HeaderView,
    g: HeaderView,
    bs: Seq<bool>,
    s: ScanState,
    m: int,
)
    requires
        h.comps.len() == g.comps.len(),
        forall|i: int| 0 <= i < h.comps.len() ==> same_tables(h, g, i),
    ensures
        units_from(h, bs, s, m) == units_from(g, bs, s, m),
    decreases m,
{
    if m > 0 {
        lemma_same_unit(h, g, bs, s, 0);
        if let Some(Ok(next)) = unit_from(h, bs, s, 0) {
            law_tables_by_number(h, g, bs, next, m - 1);
        }
    }
}

/// The first coefficient of a block differs from its prediction by the number of the size that was
/// read, written with the bits behind the size.
pub proof fn law_first_coefficient(
    dc: Seq<(u16, u8, u8)>,
    ac: Seq<(u16, u8, u8)>,
    bs: Seq<bool>,
    p: int,
    pred: int,
)
    requires
        0 <= p,
        huffman::symbol_at(dc, bs, p) matches Ok((t, q)) ==> t <= 16,
    ensures
        block_at(dc, ac, bs, p, pred) matches Some(Ok((block, end))) ==> {
            let (t, q) = huffman::symbol_at(dc, bs, p)->Ok_0;
            let diff = block[0] - pred;
            &&& huffman::symbol_at(dc, bs, p) is Ok
            &&& block.len() == 64
            &&& amplitude::bit_length(amplitude::magnitude(diff)) == t
            &&& amplitude::amplitude_code(diff, t as int) == bits::value_at(bs, q, t as int)
        },
{
    if let Ok((t, q)) = huffman::symbol_at(dc, bs, p) {
        let first = pred + amplitude_at(bs, q, t as int);
        lemma_ac_len(ac, bs, q + t, 1, flat_block(first as i32));
        lemma_amplitude_exact(bs, q, t as int);
    }
}

proof fn lemma_amplitude_exact(bs: Seq<bool>, q: int, t: int)
    requires
        0 <= t <= 16,
    ensures
        amplitude::bit_length(amplitude::magnitude(amplitude_at(bs, q, t))) == t,
        amplitude::amplitude_code(amplitude_at(bs, q, t), t) == bits::value_at(bs, q, t),
        -0x10000 < amplitude_at(bs, q, t) < 0x10000,
{
    bits::lemma_value_range(bs, q, t);
    power2::lemma2_to64();
    if t < 16 {
        power2::lemma_pow2_strictly_increases(t as nat, 16);
    }
    let v = bits::value_at(bs, q, t);
    assert(v % 0x10000 == v);
    if t > 0 {
        amplitude::law_extended(v, t);
    }
}

/// What a symbol says of the coefficients behind the first, at place `k` in zigzag order: 0x00 that
/// there are no more, 0xF0 that sixteen are zero, and any other that so many are zero as its high
/// digit says, and that a coefficient of the size in its low digit follows, written with the bits
/// behind the symbol.
pub proof fn law_coefficient(
    ac: Seq<(u16, u8, u8)>,
    bs: Seq<bool>,
    p: int,
    k: int,
    block: Seq<i32>,
    run: int,
    size: int,
    q: int,
)
    requires
        1 <= k < 64,
        block.len() == 64,
        0 <= run < 16,
        0 <= size < 16,
        huffman::symbol_at(ac, bs, p) == Ok::<(u8, int), Error>(((16 * run + size) as u8, q)),
    ensures
        run == 0 && size == 0 ==> ac_from(ac, bs, p, k, block) == Ok::<(Seq<i32>, int), Error>(
            (block, q),
        ),
        run == 15 && size == 0 ==> ac_from(ac, bs, p, k, block) == ac_from(
            ac,
            bs,
            q,
            k + 16,
            block,
        ),
        size > 0 || 0 < run < 15 ==> {
            if k + run >= 64 {
                ac_from(ac, bs, p, k, block) == Err::<(Seq<i32>, int), Error>(Error::BadHuffman)
            } else if q + size > bs.len() {
                ac_from(ac, bs, p, k, block) == Err::<(Seq<i32>, int), Error>(Error::Truncated)
            } else {
                exists|v: i32|
                    {
                        &&& amplitude::bit_length(amplitude::magnitude(v as int)) == size
                        &&& amplitude::amplitude_code(v as int, size) == bits::value_at(
                            bs,
                            q,
                            size,
                        )
                        &&& ac_from(ac, bs, p, k, block) == ac_from(
                            ac,
                            bs,
                            q + size,
                            k + run + 1,
                            #[trigger] block.update(ZIGZAG@[k + run] as int, v),
                        )
                    }
            }
        },
{
    let rs = (16 * run + size) as u8;
    assert(rs / 16 == run && rs % 16 == size);
    lemma_amplitude_exact(bs, q, size);
    if k + run < 64 {
        let v = amplitude_at(bs, q, size) as i32;
        let next = block.update(ZIGZAG@[k + run] as int, v);
        assert(next == block.update(ZIGZAG@[k + run] as int, v));
    }
}

/// The largest sampling factors of a frame, or one where all are zero.
pub open spec fn largest(comps: Seq<Component>, h: int, v: int) -> bool {
    &&& h >= 1 && v >= 1
    &&& forall|i: int| 0 <= i < comps.len() ==> (#[trigger] comps[i]).hs <= h && comps[i].vs <= v
    &&& h == 1 || exists|i: int| 0 <= i < comps.len() && (#[trigger] comps[i]).hs == h
    &&& v == 1 || exists|i: int| 0 <= i < comps.len() && (#[trigger] comps[i]).vs == v
}

proof fn lemma_largest(comps: Seq<Component>)
    requires
        forall|i: int| 0 <= i < comps.len() ==> (#[trigger] comps[i]).hs <= 15 && comps[i].vs <= 15,
    ensures
        largest(comps, max_hs(comps), max_vs(comps)),
    decreases comps.len(),
{
    lemma_max_range(comps);
    if comps.len() > 0 {
        let front = comps.drop_last();
        lemma_largest(front);
        assert(comps[comps.len() - 1] == comps.last());
        if max_hs(comps) != 1 && max_hs(comps) != comps.last().hs {
            let i = choose|i: int| 0 <= i < front.len() && (#[trigger] front[i]).hs == max_hs(front);
            assert(comps[i] == front[i]);
        }
        if max_vs(comps) != 1 && max_vs(comps) != comps.last().vs {
            let i = choose|i: int| 0 <= i < front.len() && (#[trigger] front[i]).vs == max_vs(front);
            assert(comps[i] == front[i]);
        }
    }
}

/// A frame has just as many coding units as it takes to cover the picture, a unit being as large as
/// its largest component says, and each component has its blocks in each of them.
pub proof fn law_units_cover(data: Seq<u8>)
    ensures
        frame_of(data) matches Some(Ok(f)) ==> (exists|h: int, v: int|
            {
                &&& #[trigger] largest(f.comps, h, v)
                &&& f.width <= f.across * (8 * h) < f.width + 8 * h
                &&& f.height <= f.down * (8 * v) < f.height + 8 * v
                &&& forall|i: int|
                    0 <= i < f.comps.len() ==> (#[trigger] f.blocks[i]).len() == f.across * f.down
                        * (f.comps[i].hs * f.comps[i].vs)
            }),
{
    law_frame_wf(data);
    if let Some(Ok(f)) = frame_of(data) {
        assert forall|i: int| 0 <= i < f.comps.len() implies (#[trigger] f.comps[i]).hs <= 15
            && f.comps[i].vs <= 15 by {
            assert(comp_wf(f, i));
        }
        lemma_max_range(f.comps);
        lemma_largest(f.comps);
        lemma_pieces(f.width, 8 * max_hs(f.comps));
        lemma_pieces(f.height, 8 * max_vs(f.comps));
        assert forall|i: int| 0 <= i < f.comps.len() implies (#[trigger] f.blocks[i]).len()
            == f.across * f.down * (f.comps[i].hs * f.comps[i].vs) by {
            assert(comp_wf(f, i));
        }
        assert(largest(f.comps, max_hs(f.comps), max_vs(f.comps)));
    }
}

/// A frame has the size, the components and the quantization tables of its header, and the blocks
/// that are read, unit by unit, from where the coded data starts.
pub proof fn law_frame_and_header(data: Seq<u8>)
    ensures
        frame_of(data) matches Some(Ok(f)) ==> (header::header_of(data) matches Some(Ok((h, start)))
            && {
            &&& f.width == h.width && f.height == h.height
            &&& f.comps == h.comps && f.quant == h.quant
            &&& units_from(
                h,
                bits::bits_of(reader::entropy_bytes(data.skip(start), 0)),
                scan_start(h.comps.len()),
                f.across * f.down,
            ) matches Some(Ok(s)) && s.blocks == f.blocks
        }),
{
    header::law_header_wf(data);
    if let Some(Ok((h, start))) = header::header_of(data) {
        if start <= data.len() {
            assert(data.subrange(start, data.len() as int) =~= data.skip(start));
        }
    }
}

/// There is one number of pieces that just cover a length.
proof fn lemma_cover_unique(n: int, m: int, len: int, size: int)
    requires
        0 < size,
        len <= n * size < len + size,
        len <= m * size < len + size,
    ensures
        n == m,
{
    assert(n == m) by (nonlinear_arith)
        requires
            0 < size,
            len <= n * size < len + size,
            len <= m * size < len + size,
    ;
}

/// What a file with a complete header holds: an error where there is no picture, or neither one nor
/// three components, and otherwise what its coded data reads as, in just as many coding units as
/// cover the picture. Every size and every sampling factor is read, as long as the samples of each
/// component can be numbered with 32 bits.
pub proof fn law_frame_outcome(
    data: Seq<u8>,
    h: HeaderView,
    start: int,
    hm: int,
    vm: int,
    across: int,
    down: int,
)
    requires
        header::header_of(data) == Some(Ok::<(HeaderView, int), Error>((h, start))),
        largest(h.comps, hm, vm),
        h.width <= across * (8 * hm) < h.width + 8 * hm,
        h.height <= down * (8 * vm) < h.height + 8 * vm,
        start <= data.len(),
        forall|i: int|
            0 <= i < h.comps.len() ==> (across * (#[trigger] h.comps[i]).hs * 8) * (down
                * h.comps[i].vs * 8) <= u32::MAX,
    ensures
        frame_of(data) == if h.width == 0 || h.height == 0 || h.comps.len() == 0 {
            Some(Err(Error::Truncated))
        } else if h.comps.len() != 1 && h.comps.len() != 3 {
            Some(Err(Error::Unsupported))
        } else {
            match units_from(
                h,
                bits::bits_of(reader::entropy_bytes(data.skip(start), 0)),
                scan_start(h.comps.len()),
                across * down,
            ) {
                None => None,
                Some(Err(e)) => Some(Err(e)),
                Some(Ok(s)) => Some(
                    Ok(
                        FrameView {
                            width: h.width,
                            height: h.height,
                            comps: h.comps,
                            quant: h.quant,
                            across,
                            down,
                            blocks: s.blocks,
                        },
                    ),
                ),
            }
        },
{
    header::law_header_wf(data);
    if h.width != 0 && h.height != 0 {
        lemma_unit_range(h);
        lemma_largest(h.comps);
        let m = max_hs(h.comps);
        let n = max_vs(h.comps);
        assert(m == hm && n == vm) by {
            if m != 1 {
                let i = choose|i: int| 0 <= i < h.comps.len() && (#[trigger] h.comps[i]).hs == m;
                assert(h.comps[i].hs <= hm);
            }
            if hm != 1 {
                let i = choose|i: int| 0 <= i < h.comps.len() && (#[trigger] h.comps[i]).hs == hm;
                assert(h.comps[i].hs <= m);
            }
            if n != 1 {
                let i = choose|i: int| 0 <= i < h.comps.len() && (#[trigger] h.comps[i]).vs == n;
                assert(h.comps[i].vs <= vm);
            }
            if vm != 1 {
                let i = choose|i: int| 0 <= i < h.comps.len() && (#[trigger] h.comps[i]).vs == vm;
                assert(h.comps[i].vs <= n);
            }
        }
        lemma_cover_unique(across, units_across(h), h.width, 8 * hm);
        lemma_cover_unique(down, units_down(h), h.height, 8 * vm);
        assert(data.subrange(start, data.len() as int) =~= data.skip(start));
    }
}

} // verus!
