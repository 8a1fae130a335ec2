//! The segments in front of the entropy-coded data: quantization tables, frame header, Huffman
//! tables and scan header.
//!
//! Reading is total. `None` stands for input that has no reading at all: a segment that ends
//! inside one of its fixed fields, or a Huffman table whose codes do not fit in 16 bits.
use vstd::prelude::*;

use crate::jpg::error::Error;
use crate::jpg::huffman;
use crate::jpg::huffman::HTable;
use crate::jpg::zigzag;
use crate::jpg::zigzag::ZIGZAG;

verus! {

/// One colour component of a frame.
#[derive(Debug, Clone, Copy, PartialEq, Eq, Structural)]
pub struct Component {
    pub id: u8,
    /// Blocks per coding unit, across.
    pub hs: u8,
    /// Blocks per coding unit, down.
    pub vs: u8,
    /// Quantization table.
    pub tq: u8,
    /// Huffman table for the first coefficient of a block.
    pub dc: u8,
    /// Huffman table for the other coefficients.
    pub ac: u8,
}

/// What the segments of a file have set.
pub struct Header {
    pub width: u32,
    pub height: u32,
    pub comps: Vec<Component>,
    pub quant: [[u16; 64]; 4],
    pub dc: [Option<HTable>; 4],
    pub ac: [Option<HTable>; 4],
}

/// What a header holds.
pub struct HeaderView {
    pub width: int,
    pub height: int,
    pub comps: Seq<Component>,
    pub quant: Seq<Seq<u16>>,
    pub dc: Seq<Option<Seq<(u16, u8, u8)>>>,
    pub ac: Seq<Option<Seq<(u16, u8, u8)>>>,
}

/// The codes of a slot that may hold a table.
pub open spec fn slot_codes(t: Option<HTable>) -> Option<Seq<(u16, u8, u8)>> {
    match t {
        Some(t) => Some(t@),
        None => None,
    }
}

impl Header {
    pub open spec fn view(&self) -> HeaderView {
        HeaderView {
            width: self.width as int,
            height: self.height as int,
            comps: self.comps@,
            quant: Seq::new(4, |i: int| self.quant@[i]@),
            dc: Seq::new(4, |i: int| slot_codes(self.dc@[i])),
            ac: Seq::new(4, |i: int| slot_codes(self.ac@[i])),
        }
    }
}

/// Before any segment: no size, no components, quantization by one and no Huffman tables.
pub open spec fn blank() -> HeaderView {
    HeaderView {
        width: 0,
        height: 0,
        comps: Seq::empty(),
        quant: Seq::new(4, |i: int| Seq::new(64, |n: int| 1u16)),
        dc: Seq::new(4, |i: int| None::<Seq<(u16, u8, u8)>>),
        ac: Seq::new(4, |i: int| None::<Seq<(u16, u8, u8)>>),
    }
}

/// Two bytes as a number, high byte first.
pub open spec fn be16_at(data: Seq<u8>, i: int) -> int {
    data[i] * 256 + data[i + 1]
}

/// A quantization table of single bytes, stored in zigzag order from `k` on.
pub open spec fn quant_bytes(body: Seq<u8>, k: int) -> Seq<u16> {
    Seq::new(64, |n: int| body[k + zigzag::PLACE@[n]] as u16)
}

/// A quantization table of byte pairs, stored in zigzag order from `k` on.
pub open spec fn quant_words(body: Seq<u8>, k: int) -> Seq<u16> {
    Seq::new(64, |n: int| be16_at(body, k + 2 * zigzag::PLACE@[n]) as u16)
}

/// The quantization tables after those that a segment holds from `k` on.
pub open spec fn quant_after(body: Seq<u8>, k: int, quant: Seq<Seq<u16>>) -> Result<
    Seq<Seq<u16>>,
    Error,
>
    decreases body.len() - k,
{
    if k >= body.len() {
        Ok(quant)
    } else if body[k] % 16 > 3 {
        Err(Error::Truncated)
    } else if body[k] / 16 == 0 {
        if k + 65 > body.len() {
            Err(Error::Truncated)
        } else {
            quant_after(body, k + 65, quant.update((body[k] % 16) as int, quant_bytes(body, k + 1)))
        }
    } else {
        if k + 129 > body.len() {
            Err(Error::Truncated)
        } else {
            quant_after(body, k + 129, quant.update((body[k] % 16) as int, quant_words(body, k + 1)))
        }
    }
}

/// A frame header says how many components there are, and describes each with three bytes.
pub open spec fn frame_defined(body: Seq<u8>) -> bool {
    body.len() >= 6 && body.len() >= 6 + 3 * body[5]
}

/// The components of a frame header.
pub open spec fn frame_comps(body: Seq<u8>) -> Seq<Component> {
    Seq::new(
        body[5] as nat,
        |k: int|
            Component {
                id: body[6 + 3 * k],
                hs: body[7 + 3 * k] / 16,
                vs: body[7 + 3 * k] % 16,
                tq: body[8 + 3 * k],
                dc: 0,
                ac: 0,
            },
    )
}

/// The Huffman tables after those that a segment holds from `k` on.
pub open spec fn huffman_after(
    body: Seq<u8>,
    k: int,
    dc: Seq<Option<Seq<(u16, u8, u8)>>>,
    ac: Seq<Option<Seq<(u16, u8, u8)>>>,
) -> Option<Result<(Seq<Option<Seq<(u16, u8, u8)>>>, Seq<Option<Seq<(u16, u8, u8)>>>), Error>>
    decreases body.len() - k,
{
    if k + 17 > body.len() {
        Some(Ok((dc, ac)))
    } else {
        let counts = body.subrange(k + 1, k + 17);
        let total = huffman::symbols_before(counts, 16);
        if total < 0 || k + 17 + total > body.len() {
            Some(Err(Error::Truncated))
        } else if !huffman::codes_defined(counts) {
            None
        } else {
            let codes = huffman::canonical_codes(
                counts,
                body.subrange(k + 17, k + 17 + total),
            );
            let slot = (body[k] % 4) as int;
            if body[k] / 16 == 0 {
                huffman_after(body, k + 17 + total, dc.update(slot, Some(codes)), ac)
            } else {
                huffman_after(body, k + 17 + total, dc, ac.update(slot, Some(codes)))
            }
        }
    }
}

/// The components with id `id` take the Huffman tables that `sel` names.
pub open spec fn with_selector(comps: Seq<Component>, id: u8, sel: u8) -> Seq<Component> {
    Seq::new(
        comps.len(),
        |i: int|
            if comps[i].id == id {
                Component {
                    id: comps[i].id,
                    hs: comps[i].hs,
                    vs: comps[i].vs,
                    tq: comps[i].tq,
                    dc: sel / 16,
                    ac: sel % 16,
                }
            } else {
                comps[i]
            },
    )
}

/// The components after `n` pairs of an id and a selector, stored from `at` on.
pub open spec fn with_selectors(comps: Seq<Component>, data: Seq<u8>, at: int, n: int) -> Seq<
    Component,
>
    decreases n,
{
    if n <= 0 {
        comps
    } else {
        with_selector(
            with_selectors(comps, data, at, n - 1),
            data[at + 2 * (n - 1)],
            data[at + 2 * (n - 1) + 1],
        )
    }
}

/// One segment with marker `m` changes the header.
pub open spec fn segment(h: HeaderView, m: u8, body: Seq<u8>) -> Option<Result<HeaderView, Error>> {
    if m == 0xDB {
        match quant_after(body, 0, h.quant) {
            Ok(quant) => Some(Ok(HeaderView { quant, ..h })),
            Err(e) => Some(Err(e)),
        }
    } else if m == 0xC0 {
        if frame_defined(body) {
            Some(
                Ok(
                    HeaderView {
                        height: be16_at(body, 1),
                        width: be16_at(body, 3),
                        comps: frame_comps(body),
                        ..h
                    },
                ),
            )
        } else {
            None
        }
    } else if m == 0xC2 {
        Some(Err(Error::Unsupported))
    } else if m == 0xC4 {
        match huffman_after(body, 0, h.dc, h.ac) {
            None => None,
            Some(Err(e)) => Some(Err(e)),
            Some(Ok((dc, ac))) => Some(Ok(HeaderView { dc, ac, ..h })),
        }
    } else {
        Some(Ok(h))
    }
}

/// What the segments from `i` on make of a header, and where the entropy-coded data starts. Bytes
/// between segments are skipped. Without a scan header the data starts at the front.
pub open spec fn segments_from(data: Seq<u8>, i: int, h: HeaderView) -> Option<
    Result<(HeaderView, int), Error>,
>
    decreases data.len() - i,
{
    if i + 2 > data.len() {
        Some(Ok((h, 0)))
    } else if data[i] != 0xFF {
        segments_from(data, i + 1, h)
    } else if data[i + 1] == 0xD9 {
        Some(Ok((h, 0)))
    } else if data[i + 1] == 0xDA {
        if i + 4 > data.len() {
            Some(Err(Error::Truncated))
        } else if i + 5 > data.len() || i + 5 + 2 * data[i + 4] > data.len() || i + 2 + be16_at(
            data,
            i + 2,
        ) > usize::MAX {
            None
        } else {
            let comps = with_selectors(h.comps, data, i + 5, data[i + 4] as int);
            Some(Ok((HeaderView { comps, ..h }, i + 2 + be16_at(data, i + 2))))
        }
    } else if i + 4 > data.len() {
        None
    } else {
        let len = be16_at(data, i + 2);
        if len < 2 || i + 2 + len > data.len() {
            Some(Err(Error::Truncated))
        } else {
            match segment(h, data[i + 1], data.subrange(i + 4, i + 2 + len)) {
                None => None,
                Some(Err(e)) => Some(Err(e)),
                Some(Ok(next)) => segments_from(data, i + 2 + len, next),
            }
        }
    }
}

/// The header of a file, and where its entropy-coded data starts.
pub open spec fn header_of(data: Seq<u8>) -> Option<Result<(HeaderView, int), Error>> {
    if data.len() < 2 || data[0] != 0xFF || data[1] != 0xD8 {
        Some(Err(Error::NotJpeg))
    } else {
        segments_from(data, 2, blank())
    }
}

fn be16_of(data: &[u8], i: usize) -> (r: usize)
    requires
        i + 1 < data@.len(),
    ensures
        r == be16_at(data@, i as int),
        r <= 0xFFFF,
{
    data[i] as usize * 256 + data[i + 1] as usize
}

fn read_quant_bytes(body: &[u8], k: usize) -> (table: [u16; 64])
    requires
        k + 64 <= body@.len(),
    ensures
        table@ == quant_bytes(body@, k as int),
{
    let mut table = [0u16; 64];
    let mut j: usize = 0;
    proof {
        zigzag::law_zigzag_is_permutation();
    }
    while j < 64
        invariant
            j <= 64,
            k + 64 <= body.len(),
            forall|n: int|
                0 <= n < 64 && (#[trigger] zigzag::PLACE@[n]) < j ==> table@[n] == body@[k
                    + zigzag::PLACE@[n]],
            forall|i: int|
                0 <= i < 64 ==> (#[trigger] ZIGZAG@[i]) < 64 && zigzag::PLACE@[ZIGZAG@[i] as int]
                    == i,
            forall|n: int|
                0 <= n < 64 ==> (#[trigger] zigzag::PLACE@[n]) < 64
                    && ZIGZAG@[zigzag::PLACE@[n] as int] == n,
        decreases 64 - j,
    {
        let z: usize = ZIGZAG[j];
        assert(z == ZIGZAG@[j as int]);
        table[z] = body[k + j] as u16;
        j += 1;
    }
    assert(table@ =~= quant_bytes(body@, k as int));
    table
}

fn read_quant_words(body: &[u8], k: usize) -> (table: [u16; 64])
    requires
        k + 128 <= body@.len(),
    ensures
        table@ == quant_words(body@, k as int),
{
    let mut table = [0u16; 64];
    let mut j: usize = 0;
    proof {
        zigzag::law_zigzag_is_permutation();
    }
    while j < 64
        invariant
            j <= 64,
            k + 128 <= body.len(),
            forall|n: int|
                0 <= n < 64 && (#[trigger] zigzag::PLACE@[n]) < j ==> table@[n] == be16_at(
                    body@,
                    k + 2 * zigzag::PLACE@[n],
                ),
            forall|i: int|
                0 <= i < 64 ==> (#[trigger] ZIGZAG@[i]) < 64 && zigzag::PLACE@[ZIGZAG@[i] as int]
                    == i,
            forall|n: int|
                0 <= n < 64 ==> (#[trigger] zigzag::PLACE@[n]) < 64
                    && ZIGZAG@[zigzag::PLACE@[n] as int] == n,
        decreases 64 - j,
    {
        let z: usize = ZIGZAG[j];
        assert(z == ZIGZAG@[j as int]);
        table[z] = be16_of(body, k + 2 * j) as u16;
        j += 1;
    }
    assert(table@ =~= quant_words(body@, k as int));
    table
}

impl Header {
    /// A header that no segment has touched.
    pub fn new() -> (h: Self)
        ensures
            h@ == blank(),
    {
        let h = Header {
            width: 0,
            height: 0,
            comps: Vec::new(),
            quant: [[1u16; 64]; 4],
            dc: [None, None, None, None],
            ac: [None, None, None, None],
        };
        assert(h@.comps =~= blank().comps);
        assert(h@.quant =~= blank().quant) by {
            assert forall|i: int| 0 <= i < 4 implies h@.quant[i] =~= blank().quant[i] by {}
        }
        assert(h@.dc =~= blank().dc);
        assert(h@.ac =~= blank().ac);
        h
    }

    /// Takes in the quantization tables of a segment. After an error nothing but quantization
    /// tables may have changed.
    pub fn read_quant(&mut self, body: &[u8]) -> (r: Result<(), Error>)
        ensures
            match quant_after(body@, 0, old(self)@.quant) {
                Ok(quant) => r is Ok && final(self)@ == (HeaderView { quant, ..old(self)@ }),
                Err(e) => r == Err::<(), Error>(e),
            },
            final(self)@ == (HeaderView { quant: final(self)@.quant, ..old(self)@ }),
    {
        let mut k: usize = 0;
        while k < body.len()
            invariant
                k <= body@.len(),
                quant_after(body@, 0, old(self)@.quant) == quant_after(
                    body@,
                    k as int,
                    self@.quant,
                ),
                self@ == (HeaderView { quant: self@.quant, ..old(self)@ }),
            decreases body@.len() - k,
        {
            let info: u8 = body[k];
            let tq: usize = (info % 16) as usize;
            if tq > 3 {
                return Err(Error::Truncated);
            }
            let ghost before = self@;
            if info / 16 == 0 {
                if body.len() - k < 65 {
                    return Err(Error::Truncated);
                }
                self.quant[tq] = read_quant_bytes(body, k + 1);
                assert(self@.quant =~= before.quant.update(tq as int, quant_bytes(body@, k + 1)));
                k += 65;
            } else {
                if body.len() - k < 129 {
                    return Err(Error::Truncated);
                }
                self.quant[tq] = read_quant_words(body, k + 1);
                assert(self@.quant =~= before.quant.update(tq as int, quant_words(body@, k + 1)));
                k += 129;
            }
        }
        Ok(())
    }

    /// Takes in a frame header: the size and the components. `None` where it breaks off.
    pub fn read_frame_header(&mut self, body: &[u8]) -> (r: Option<()>)
        ensures
            r is Some <==> frame_defined(body@),
            r is Some ==> final(self)@ == (HeaderView {
                height: be16_at(body@, 1),
                width: be16_at(body@, 3),
                comps: frame_comps(body@),
                ..old(self)@
            }),
            r is None ==> final(self)@ == old(self)@,
    {
        if body.len() < 6 {
            return None;
        }
        let nc: usize = body[5] as usize;
        if body.len() < 6 + 3 * nc {
            return None;
        }
        self.height = be16_of(body, 1) as u32;
        self.width = be16_of(body, 3) as u32;
        let mut comps: Vec<Component> = Vec::new();
        let mut k: usize = 0;
        while k < nc
            invariant
                k <= nc,
                nc == body@[5],
                body@.len() >= 6 + 3 * nc,
                comps@ == frame_comps(body@).take(k as int),
            decreases nc - k,
        {
            let o: usize = 6 + k * 3;
            comps.push(
                Component {
                    id: body[o],
                    hs: body[o + 1] / 16,
                    vs: body[o + 1] % 16,
                    tq: body[o + 2],
                    dc: 0,
                    ac: 0,
                },
            );
            k += 1;
            assert(comps@ =~= frame_comps(body@).take(k as int));
        }
        assert(frame_comps(body@).take(nc as int) =~= frame_comps(body@));
        self.comps = comps;
        Some(())
    }

    /// Takes in the Huffman tables of a segment. `None` where the codes of one do not exist. When it
    /// fails, nothing but Huffman tables may have changed.
    pub fn read_huffman(&mut self, body: &[u8]) -> (r: Option<Result<(), Error>>)
        ensures
            match huffman_after(body@, 0, old(self)@.dc, old(self)@.ac) {
                None => r is None,
                Some(Err(e)) => r == Some(Err::<(), Error>(e)),
                Some(Ok((dc, ac))) => r == Some(Ok::<(), Error>(())) && final(self)@ == (
                HeaderView { dc, ac, ..old(self)@ }),
            },
            final(self)@ == (HeaderView {
                dc: final(self)@.dc,
                ac: final(self)@.ac,
                ..old(self)@
            }),
    {
        let mut k: usize = 0;
        while body.len() - k >= 17
            invariant
                k <= body@.len(),
                huffman_after(body@, 0, old(self)@.dc, old(self)@.ac) == huffman_after(
                    body@,
                    k as int,
                    self@.dc,
                    self@.ac,
                ),
                self@ == (HeaderView { dc: self@.dc, ac: self@.ac, ..old(self)@ }),
            decreases body@.len() - k,
        {
            let info: u8 = body[k];
            let mut counts = [0u8; 16];
            let mut total: usize = 0;
            let mut j: usize = 0;
            let ghost wanted = body@.subrange(k + 1, k + 17);
            while j < 16
                invariant
                    j <= 16,
                    k + 17 <= body.len(),
                    wanted == body@.subrange(k + 1, k + 17),
                    forall|i: int| 0 <= i < j ==> counts@[i] == wanted[i],
                    total == huffman::symbols_before(wanted, j as int),
                    total <= 255 * j,
                decreases 16 - j,
            {
                counts[j] = body[k + 1 + j];
                total += body[k + 1 + j] as usize;
                j += 1;
            }
            assert(counts@ =~= wanted);
            if body.len() - k - 17 < total {
                return Some(Err(Error::Truncated));
            }
            if !huffman::codes_fit(&counts) {
                return None;
            }
            let syms: Vec<u8> = vstd::slice::slice_to_vec(&body[k + 17..k + 17 + total]);
            let t = HTable::build(counts, syms);
            let ghost codes = t@;
            let idx: usize = (info % 4) as usize;
            let ghost before = self@;
            if info / 16 == 0 {
                self.dc[idx] = Some(t);
                assert(self@.dc =~= before.dc.update(idx as int, Some(codes)));
            } else {
                self.ac[idx] = Some(t);
                assert(self@.ac =~= before.ac.update(idx as int, Some(codes)));
            }
            k += 17 + total;
        }
        Some(Ok(()))
    }

    /// Gives the components the Huffman tables that `n` pairs from `at` on name.
    pub fn read_selectors(&mut self, data: &[u8], at: usize, n: usize)
        requires
            at + 2 * n <= data@.len(),
        ensures
            final(self)@ == (HeaderView {
                comps: with_selectors(old(self)@.comps, data@, at as int, n as int),
                ..old(self)@
            }),
    {
        let mut k: usize = 0;
        while k < n
            invariant
                k <= n,
                at + 2 * n <= data.len(),
                self@ == (HeaderView {
                    comps: with_selectors(old(self)@.comps, data@, at as int, k as int),
                    ..old(self)@
                }),
            decreases n - k,
        {
            let cs: u8 = data[at + 2 * k];
            let sel: u8 = data[at + 2 * k + 1];
            let ghost before = self@;
            let mut c: usize = 0;
            while c < self.comps.len()
                invariant
                    c <= self.comps@.len(),
                    self@ == (HeaderView { comps: self@.comps, ..before }),
                    self.comps@.len() == before.comps.len(),
                    forall|i: int|
                        0 <= i < c ==> self.comps@[i] == with_selector(before.comps, cs, sel)[i],
                    forall|i: int|
                        c <= i < self.comps@.len() ==> self.comps@[i] == before.comps[i],
                decreases self.comps@.len() - c,
            {
                if self.comps[c].id == cs {
                    let old_comp: Component = self.comps[c];
                    self.comps[c] = Component {
                        id: old_comp.id,
                        hs: old_comp.hs,
                        vs: old_comp.vs,
                        tq: old_comp.tq,
                        dc: sel / 16,
                        ac: sel % 16,
                    };
                }
                c += 1;
            }
            assert(self.comps@ =~= with_selector(before.comps, cs, sel));
            k += 1;
        }
    }
}

/// Reads the segments of a file up to its entropy-coded data. Gives the header and where that data
/// starts, which may lie behind the end of the input.
pub fn read_header(data: &[u8]) -> (r: Option<Result<(Header, usize), Error>>)
    ensures
        match header_of(data@) {
            None => r is None,
            Some(Err(e)) => r == Some(Err::<(Header, usize), Error>(e)),
            Some(Ok((h, start))) => r matches Some(Ok((g, s))) && g@ == h && s == start,
        },
{
    if data.len() < 2 || data[0] != 0xFF || data[1] != 0xD8 {
        return Some(Err(Error::NotJpeg));
    }
    let mut h = Header::new();
    let mut i: usize = 2;
    while data.len() - i >= 2
        invariant
            i <= data@.len(),
            header_of(data@) == segments_from(data@, i as int, h@),
        decreases data@.len() - i,
    {
        if data[i] != 0xFF {
            i += 1;
            continue;
        }
        let m: u8 = data[i + 1];
        if m == 0xD9 {
            return Some(Ok((h, 0)));
        }
        if m == 0xDA {
            if data.len() - i < 4 {
                return Some(Err(Error::Truncated));
            }
            let len: usize = be16_of(data, i + 2);
            if data.len() - i < 5 {
                return None;
            }
            let ns: usize = data[i + 4] as usize;
            if data.len() - i - 5 < 2 * ns {
                return None;
            }
            h.read_selectors(data, i + 5, ns);
            if i > usize::MAX - 2 - len {
                return None;
            }
            return Some(Ok((h, i + 2 + len)));
        }
        if data.len() - i < 4 {
            return None;
        }
        let len: usize = be16_of(data, i + 2);
        if len < 2 || data.len() - i - 2 < len {
            return Some(Err(Error::Truncated));
        }
        let body = &data[i + 4..i + 2 + len];
        if m == 0xDB {
            match h.read_quant(body) {
                Ok(_) => {},
                Err(e) => {
                    return Some(Err(e));
                },
            }
        } else if m == 0xC0 {
            match h.read_frame_header(body) {
                Some(_) => {},
                None => {
                    return None;
                },
            }
        } else if m == 0xC2 {
            return Some(Err(Error::Unsupported));
        } else if m == 0xC4 {
            match h.read_huffman(body) {
                None => {
                    return None;
                },
                Some(Err(e)) => {
                    return Some(Err(e));
                },
                Some(Ok(_)) => {},
            }
        }
        i += 2 + len;
    }
    Some(Ok((h, 0)))
}

/// What the bytes of a header can say: sizes of 16 bits, sampling factors of four bits, and four
/// tables of each kind.
pub open spec fn header_wf(h: HeaderView) -> bool {
    &&& 0 <= h.width <= 0xFFFF
    &&& 0 <= h.height <= 0xFFFF
    &&& forall|i: int|
        0 <= i < h.comps.len() ==> (#[trigger] h.comps[i]).hs <= 15 && h.comps[i].vs <= 15
    &&& h.quant.len() == 4
    &&& forall|i: int| 0 <= i < 4 ==> (#[trigger] h.quant[i]).len() == 64
    &&& h.dc.len() == 4
    &&& h.ac.len() == 4
}

proof fn lemma_quant_wf(body: Seq<u8>, k: int, quant: Seq<Seq<u16>>)
    requires
        quant.len() == 4,
        forall|i: int| 0 <= i < 4 ==> (#[trigger] quant[i]).len() == 64,
    ensures
        quant_after(body, k, quant) matches Ok(q) ==> q.len() == 4 && forall|i: int|
            0 <= i < 4 ==> (#[trigger] q[i]).len() == 64,
    decreases body.len() - k,
{
    if k < body.len() && body[k] % 16 <= 3 {
        if k + 65 <= body.len() {
            lemma_quant_wf(
                body,
                k + 65,
                quant.update((body[k] % 16) as int, quant_bytes(body, k + 1)),
            );
        }
        if k + 129 <= body.len() {
            lemma_quant_wf(
                body,
                k + 129,
                quant.update((body[k] % 16) as int, quant_words(body, k + 1)),
            );
        }
    }
}

proof fn lemma_huffman_wf(
    body: Seq<u8>,
    k: int,
    dc: Seq<Option<Seq<(u16, u8, u8)>>>,
    ac: Seq<Option<Seq<(u16, u8, u8)>>>,
)
    requires
        dc.len() == 4,
        ac.len() == 4,
    ensures
        huffman_after(body, k, dc, ac) matches Some(Ok((d, a))) ==> d.len() == 4 && a.len() == 4,
    decreases body.len() - k,
{
    if k + 17 <= body.len() {
        let counts = body.subrange(k + 1, k + 17);
        let total = huffman::symbols_before(counts, 16);
        if 0 <= total && k + 17 + total <= body.len() {
            let codes = huffman::canonical_codes(counts, body.subrange(k + 17, k + 17 + total));
            let slot = (body[k] % 4) as int;
            lemma_huffman_wf(body, k + 17 + total, dc.update(slot, Some(codes)), ac);
            lemma_huffman_wf(body, k + 17 + total, dc, ac.update(slot, Some(codes)));
        }
    }
}

proof fn lemma_selectors_wf(comps: Seq<Component>, data: Seq<u8>, at: int, n: int)
    ensures
        with_selectors(comps, data, at, n).len() == comps.len(),
        forall|i: int|
            0 <= i < comps.len() ==> (#[trigger] with_selectors(comps, data, at, n)[i]).hs
                == comps[i].hs && with_selectors(comps, data, at, n)[i].vs == comps[i].vs,
    decreases n,
{
    if n > 0 {
        lemma_selectors_wf(comps, data, at, n - 1);
    }
}

proof fn lemma_segments_wf(data: Seq<u8>, i: int, h: HeaderView)
    requires
        header_wf(h),
        0 <= i,
    ensures
        segments_from(data, i, h) matches Some(Ok((g, start))) ==> header_wf(g) && 0 <= start,
    decreases data.len() - i,
{
    if i + 2 <= data.len() {
        if data[i] != 0xFF {
            lemma_segments_wf(data, i + 1, h);
        } else if data[i + 1] == 0xDA {
            if i + 5 <= data.len() {
                lemma_selectors_wf(h.comps, data, i + 5, data[i + 4] as int);
            }
        } else if data[i + 1] != 0xD9 && i + 4 <= data.len() {
            let len = be16_at(data, i + 2);
            if 2 <= len && i + 2 + len <= data.len() {
                let body = data.subrange(i + 4, i + 2 + len);
                lemma_quant_wf(body, 0, h.quant);
                lemma_huffman_wf(body, 0, h.dc, h.ac);
                if segment(h, data[i + 1], body) is Some && segment(h, data[i + 1], body)->0 is Ok {
                    lemma_segments_wf(data, i + 2 + len, segment(h, data[i + 1], body)->0->Ok_0);
                }
            }
        }
    }
}

/// Every header that is read has sizes of 16 bits, sampling factors of four bits, and four tables
/// of each kind.
pub proof fn law_header_wf(data: Seq<u8>)
    ensures
        header_of(data) matches Some(Ok((h, start))) ==> header_wf(h) && 0 <= start,
{
    lemma_segments_wf(data, 2, blank());
}

} // verus!
