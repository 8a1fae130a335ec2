//! Decoding a whole file.
use vstd::prelude::*;

use crate::image::{Image, Picture};
use crate::jpg::error::Error;
use crate::jpg::frame;
use crate::jpg::scan;

verus! {

/// The data decodes to an image or to an error. It does not where its segments or its
/// coefficients have no reading, or where the picture is too large to be painted.
pub open spec fn decodable(data: Seq<u8>) -> bool {
    match scan::frame_of(data) {
        None => false,
        Some(Err(_)) => true,
        Some(Ok(f)) => frame::paintable(f),
    }
}

/// The picture `p` is what the data shows, given the inverse transform and the colour conversion.
pub open spec fn depicts<
    F: Fn([i32; 64], [u16; 64]) -> [u8; 64],
    G: Fn(u8, u8, u8) -> (u8, u8, u8),
>(data: Seq<u8>, idct: F, to_rgb: G, p: Picture) -> bool {
    scan::frame_of(data) matches Some(Ok(f)) && exists|samples: Seq<Seq<[u8; 64]>>|
        frame::transformed(f, idct, samples) && #[trigger] frame::painted(f, samples, to_rgb, p)
}

/// What decoding gives: the error that the data is refused with, or what it shows.
pub open spec fn decodes_to<
    F: Fn([i32; 64], [u16; 64]) -> [u8; 64],
    G: Fn(u8, u8, u8) -> (u8, u8, u8),
>(data: Seq<u8>, idct: F, to_rgb: G, r: Result<Image, Error>) -> bool {
    match r {
        Err(e) => scan::frame_of(data) == Some(Err::<scan::FrameView, Error>(e)),
        Ok(img) => img.wf() && depicts(data, idct, to_rgb, img@),
    }
}

/// What the inverse transform makes of a block does not vary.
pub open spec fn steady_idct<F: Fn([i32; 64], [u16; 64]) -> [u8; 64]>(idct: F) -> bool {
    forall|b: [i32; 64], q: [u16; 64], s: [u8; 64], t: [u8; 64]| #[trigger]
        call_ensures(idct, (b, q), s) && #[trigger] call_ensures(idct, (b, q), t) ==> s == t
}

/// What the colour conversion makes of three samples does not vary.
pub open spec fn steady_to_rgb<G: Fn(u8, u8, u8) -> (u8, u8, u8)>(to_rgb: G) -> bool {
    forall|y: u8, cb: u8, cr: u8, s: (u8, u8, u8), t: (u8, u8, u8)| #[trigger]
        call_ensures(to_rgb, (y, cb, cr), s) && #[trigger] call_ensures(to_rgb, (y, cb, cr), t)
            ==> s == t
}

/// A file shows one picture, as long as the transform and the conversion do not vary.
pub proof fn law_decoding_is_unique<
    F: Fn([i32; 64], [u16; 64]) -> [u8; 64],
    G: Fn(u8, u8, u8) -> (u8, u8, u8),
>(data: Seq<u8>, idct: F, to_rgb: G, p: Picture, q: Picture)
    requires
        steady_idct(idct),
        steady_to_rgb(to_rgb),
        depicts(data, idct, to_rgb, p),
        depicts(data, idct, to_rgb, q),
    ensures
        p == q,
{
    let f = scan::frame_of(data)->0->Ok_0;
    let s = choose|s: Seq<Seq<[u8; 64]>>|
        frame::transformed(f, idct, s) && #[trigger] frame::painted(f, s, to_rgb, p);
    let t = choose|t: Seq<Seq<[u8; 64]>>|
        frame::transformed(f, idct, t) && #[trigger] frame::painted(f, t, to_rgb, q);
    assert forall|i: int| 0 <= i < s.len() implies #[trigger] s[i] == t[i] by {
        assert forall|j: int| 0 <= j < s[i].len() implies #[trigger] s[i][j] == t[i][j] by {
            let block = f.blocks[i][j];
            let table = f.quant[f.comps[i].tq as int];
            assert(frame::inverse(idct, block, table, s[i][j]));
            assert(frame::inverse(idct, block, table, t[i][j]));
            lemma_inverse_unique(idct, block, table, s[i][j], t[i][j]);
        }
        assert(t[i].len() == s[i].len());
        assert(s[i] =~= t[i]);
    }
    assert(s =~= t);
    scan::law_frame_wf(data);
    assert forall|i: int| 0 <= i < p.rgb.len() implies p.rgb[i] == q.rgb[i] by {
        let w = f.width;
        let k = i / 3;
        assert(0 <= k < w * f.height);
        frame::lemma_row_col(w, f.height, k);
        let x = k % w;
        let y = k / w;
        assert(p.has(x, y) && q.has(x, y));
        assert(p.offset(x, y) == 3 * k && q.offset(x, y) == 3 * k);
        assert(frame::shows(f, s, to_rgb, x, y, p.pixel(x, y)));
        assert(frame::shows(f, s, to_rgb, x, y, q.pixel(x, y)));
        assert(p.pixel(x, y) == q.pixel(x, y));
    }
    assert(p.rgb =~= q.rgb);
}

/// The same error, or images that show the same.
pub open spec fn same_result(a: Result<Image, Error>, b: Result<Image, Error>) -> bool {
    match (a, b) {
        (Err(e), Err(f)) => e == f,
        (Ok(img), Ok(other)) => img@ == other@,
        _ => false,
    }
}

/// Decoding a file twice gives the same, as long as the transform and the conversion do not vary.
pub proof fn law_decoding_repeats<
    F: Fn([i32; 64], [u16; 64]) -> [u8; 64],
    G: Fn(u8, u8, u8) -> (u8, u8, u8),
>(data: Seq<u8>, idct: F, to_rgb: G, a: Result<Image, Error>, b: Result<Image, Error>)
    requires
        steady_idct(idct),
        steady_to_rgb(to_rgb),
        decodes_to(data, idct, to_rgb, a),
        decodes_to(data, idct, to_rgb, b),
    ensures
        same_result(a, b),
{
    if let Ok(img) = a {
        if let Ok(other) = b {
            law_decoding_is_unique(data, idct, to_rgb, img@, other@);
        }
    }
}

proof fn lemma_inverse_unique<F: Fn([i32; 64], [u16; 64]) -> [u8; 64]>(
    idct: F,
    block: Seq<i32>,
    table: Seq<u16>,
    s: [u8; 64],
    t: [u8; 64],
)
    requires
        steady_idct(idct),
        frame::inverse(idct, block, table, s),
        frame::inverse(idct, block, table, t),
    ensures
        s == t,
{
    let (b1, q1) = choose|b: [i32; 64], q: [u16; 64]|
        b@ == block && q@ == table && #[trigger] call_ensures(idct, (b, q), s);
    let (b2, q2) = choose|b: [i32; 64], q: [u16; 64]|
        b@ == block && q@ == table && #[trigger] call_ensures(idct, (b, q), t);
    assert(b1 =~= b2);
    assert(q1 =~= q2);
}

/// Decodes a file, or gives `None` where it does not decode to anything.
///
/// `idct` makes the samples of a block from its coefficients, in natural order, and its
/// quantization table; `to_rgb` makes a colour from luma and two chroma samples.
pub fn decode_checked<
    F: Fn([i32; 64], [u16; 64]) -> [u8; 64],
    G: Fn(u8, u8, u8) -> (u8, u8, u8),
>(data: &[u8], idct: &F, to_rgb: &G) -> (r: Option<Result<Image, Error>>)
    requires
        forall|b: [i32; 64], q: [u16; 64]| call_requires(*idct, (b, q)),
        forall|y: u8, cb: u8, cr: u8| call_requires(*to_rgb, (y, cb, cr)),
    ensures
        match r {
            None => !decodable(data@),
            Some(d) => decodable(data@) && decodes_to(data@, *idct, *to_rgb, d),
        },
{
    let f: scan::Frame = match scan::read_frame(data) {
        None => {
            return None;
        },
        Some(Err(e)) => {
            return Some(Err(e));
        },
        Some(Ok(f)) => f,
    };
    proof {
        scan::law_frame_wf(data@);
    }
    if !frame::can_paint(&f) {
        return None;
    }
    let samples = frame::transform(&f, idct);
    assert forall|i: int| 0 <= i < samples@.len() implies (#[trigger] samples@[i])@.len()
        == f@.blocks[i].len() by {
        assert(frame::sample_seqs(samples@)[i].len() == f@.blocks[i].len());
    }
    let img = frame::paint(&f, &samples, to_rgb);
    assert(frame::painted(f@, frame::sample_seqs(samples@), *to_rgb, img@));
    Some(Ok(img))
}

/// Decodes a file.
pub fn decode<
    F: Fn([i32; 64], [u16; 64]) -> [u8; 64],
    G: Fn(u8, u8, u8) -> (u8, u8, u8),
>(data: &[u8], idct: &F, to_rgb: &G) -> (r: Result<Image, Error>)
    requires
        decodable(data@),
        forall|b: [i32; 64], q: [u16; 64]| call_requires(*idct, (b, q)),
        forall|y: u8, cb: u8, cr: u8| call_requires(*to_rgb, (y, cb, cr)),
    ensures
        decodes_to(data@, *idct, *to_rgb, r),
{
    decode_checked(data, idct, to_rgb).unwrap()
}

/// Every frame that was read is shown, as long as each component has blocks and places can be
/// counted with 32 bits; so is every error.
pub proof fn law_decodable(data: Seq<u8>)
    ensures
        scan::frame_of(data) matches Some(Err(_)) ==> decodable(data),
        scan::frame_of(data) is None ==> !decodable(data),
        scan::frame_of(data) matches Some(Ok(f)) ==> (decodable(data) <==> {
            &&& f.width * f.height * 3 <= u32::MAX
            &&& forall|i: int|
                0 <= i < f.comps.len() ==> {
                    let c = #[trigger] f.comps[i];
                    &&& c.hs >= 1 && c.vs >= 1
                    &&& (f.width - 1) * (f.across * c.hs * 8) <= u32::MAX
                    &&& (f.height - 1) * (f.down * c.vs * 8) <= u32::MAX
                }
        }),
{
    if let Some(Ok(f)) = scan::frame_of(data) {
        if decodable(data) {
            assert forall|i: int| 0 <= i < f.comps.len() implies {
                let c = #[trigger] f.comps[i];
                &&& c.hs >= 1 && c.vs >= 1
                &&& (f.width - 1) * (f.across * c.hs * 8) <= u32::MAX
                &&& (f.height - 1) * (f.down * c.vs * 8) <= u32::MAX
            } by {
                assert(frame::comp_paintable(f, i));
            }
        }
    }
}

} // verus!
