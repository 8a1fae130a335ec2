//! From coefficients to pixels: samples, planes, and the picture.
//!
//! The inverse transform of a block and the conversion of a colour are handed in as functions.
use vstd::prelude::*;

use crate::color::Color;
use crate::image::{Image, Picture};
use crate::jpg::header::Component;
use crate::jpg::scan;
use crate::jpg::scan::{Frame, FrameView};

verus! {

/// Samples of a component across.
pub open spec fn plane_width(f: FrameView, i: int) -> int {
    f.across * f.comps[i].hs * 8
}

/// Samples of a component down.
pub open spec fn plane_height(f: FrameView, i: int) -> int {
    f.down * f.comps[i].vs * 8
}

/// Which block of a component holds the sample in column `x` and row `y`, counted in the order in
/// which the blocks come: coding units row by row, and the blocks in each row by row.
pub open spec fn block_index(across: int, c: Component, x: int, y: int) -> int {
    let bx = x / 8;
    let by = y / 8;
    let unit = (by / c.vs as int) * across + bx / c.hs as int;
    unit * (c.hs * c.vs) + (by % c.vs as int) * c.hs + bx % c.hs as int
}

/// The sample of a component in column `x` and row `y`.
pub open spec fn sample_at(
    samples: Seq<[u8; 64]>,
    across: int,
    c: Component,
    x: int,
    y: int,
) -> u8 {
    samples[block_index(across, c, x, y)]@[(y % 8) * 8 + x % 8]
}

/// The sample of component `i` that shows at a point of the picture: the one whose place in its
/// plane corresponds, rounded down.
pub open spec fn shown_at(f: FrameView, samples: Seq<Seq<[u8; 64]>>, i: int, x: int, y: int) -> u8 {
    sample_at(
        samples[i],
        f.across,
        f.comps[i],
        x * plane_width(f, i) / f.width,
        y * plane_height(f, i) / f.height,
    )
}

/// The picture has few enough channels to count with 32 bits, every component has samples, and
/// the places of samples can be worked out with 32 bits.
pub open spec fn paintable(f: FrameView) -> bool {
    &&& f.width * f.height * 3 <= u32::MAX
    &&& forall|i: int| 0 <= i < f.comps.len() ==> comp_paintable(f, i)
}

/// A component has samples, and their places can be worked out with 32 bits.
pub open spec fn comp_paintable(f: FrameView, i: int) -> bool {
    &&& f.comps[i].hs >= 1
    &&& f.comps[i].vs >= 1
    &&& (f.width - 1) * plane_width(f, i) <= u32::MAX
    &&& (f.height - 1) * plane_height(f, i) <= u32::MAX
}

/// `idct` makes the samples `s` of a block with these coefficients and this quantization table.
pub open spec fn inverse<F: Fn([i32; 64], [u16; 64]) -> [u8; 64]>(
    idct: F,
    block: Seq<i32>,
    table: Seq<u16>,
    s: [u8; 64],
) -> bool {
    exists|b: [i32; 64], q: [u16; 64]|
        b@ == block && q@ == table && #[trigger] call_ensures(idct, (b, q), s)
}

/// `samples` holds what `idct` makes of each block of a frame.
pub open spec fn transformed<F: Fn([i32; 64], [u16; 64]) -> [u8; 64]>(
    f: FrameView,
    idct: F,
    samples: Seq<Seq<[u8; 64]>>,
) -> bool {
    &&& samples.len() == f.blocks.len()
    &&& forall|i: int|
        0 <= i < f.blocks.len() ==> (#[trigger] samples[i]).len() == f.blocks[i].len()
    &&& forall|i: int, j: int|
        0 <= i < f.blocks.len() && 0 <= j < f.blocks[i].len() ==> inverse(
            idct,
            f.blocks[i][j],
            f.quant[f.comps[i].tq as int],
            #[trigger] samples[i][j],
        )
}

/// A pixel shows its samples: as grey for one component, through `to_rgb` for three.
pub open spec fn shows<G: Fn(u8, u8, u8) -> (u8, u8, u8)>(
    f: FrameView,
    samples: Seq<Seq<[u8; 64]>>,
    to_rgb: G,
    x: int,
    y: int,
    c: Color,
) -> bool {
    if f.comps.len() == 1 {
        let v = shown_at(f, samples, 0, x, y);
        c == (Color { r: v, g: v, b: v })
    } else {
        call_ensures(
            to_rgb,
            (
                shown_at(f, samples, 0, x, y),
                shown_at(f, samples, 1, x, y),
                shown_at(f, samples, 2, x, y),
            ),
            (c.r, c.g, c.b),
        )
    }
}

/// A picture shows the samples of a frame.
pub open spec fn painted<G: Fn(u8, u8, u8) -> (u8, u8, u8)>(
    f: FrameView,
    samples: Seq<Seq<[u8; 64]>>,
    to_rgb: G,
    p: Picture,
) -> bool {
    &&& p.wf()
    &&& p.width == f.width
    &&& p.height == f.height
    &&& forall|x: int, y: int|
        p.has(x, y) ==> shows(f, samples, to_rgb, x, y, #[trigger] p.pixel(x, y))
}

/// Samples by component and block.
pub open spec fn sample_seqs(samples: Seq<Vec<[u8; 64]>>) -> Seq<Seq<[u8; 64]>> {
    Seq::new(samples.len(), |i: int| samples[i]@)
}

/// Applies the inverse transform to every block of a frame.
pub fn transform<F: Fn([i32; 64], [u16; 64]) -> [u8; 64]>(f: &Frame, idct: &F) -> (r: Vec<
    Vec<[u8; 64]>,
>)
    requires
        scan::frame_wf(f@),
        forall|b: [i32; 64], q: [u16; 64]| call_requires(*idct, (b, q)),
    ensures
        transformed(f@, *idct, sample_seqs(r@)),
{
    let mut all: Vec<Vec<[u8; 64]>> = Vec::new();
    let mut i: usize = 0;
    while i < f.comps.len()
        invariant
            i <= f.comps@.len(),
            scan::frame_wf(f@),
            forall|b: [i32; 64], q: [u16; 64]| call_requires(*idct, (b, q)),
            all@.len() == i,
            forall|k: int|
                0 <= k < i ==> (#[trigger] sample_seqs(all@)[k]).len() == f@.blocks[k].len(),
            forall|k: int, j: int|
                0 <= k < i && 0 <= j < f@.blocks[k].len() ==> inverse(
                    *idct,
                    f@.blocks[k][j],
                    f@.quant[f@.comps[k].tq as int],
                    #[trigger] sample_seqs(all@)[k][j],
                ),
        decreases f.comps@.len() - i,
    {
        let tq: u8 = f.comps[i].tq;
        assert(scan::comp_wf(f@, i as int));
        assert(f@.blocks[i as int].len() == f.blocks@[i as int]@.len());
        let mut samples: Vec<[u8; 64]> = Vec::new();
        let mut j: usize = 0;
        while j < f.blocks[i].len()
            invariant
                i < f.comps@.len(),
                i < f.blocks@.len(),
                j <= f.blocks@[i as int]@.len(),
                f@.blocks[i as int].len() == f.blocks@[i as int]@.len(),
                f.blocks@[i as int]@.len() > 0 ==> tq <= 3,
                tq == f@.comps[i as int].tq,
                forall|b: [i32; 64], q: [u16; 64]| call_requires(*idct, (b, q)),
                samples@.len() == j,
                forall|k: int|
                    0 <= k < j ==> inverse(
                        *idct,
                        f@.blocks[i as int][k],
                        f@.quant[tq as int],
                        #[trigger] samples@[k],
                    ),
            decreases f.blocks@[i as int]@.len() - j,
        {
            let b: [i32; 64] = f.blocks[i][j];
            let q: [u16; 64] = f.quant[tq as usize];
            let s: [u8; 64] = idct(b, q);
            assert(b@ == f@.blocks[i as int][j as int]);
            assert(q@ == f@.quant[tq as int]);
            assert(call_ensures(*idct, (b, q), s));
            samples.push(s);
            j += 1;
        }
        let ghost before = all@;
        let ghost last = samples@;
        all.push(samples);
        i += 1;
        proof {
            let done = sample_seqs(all@);
            assert forall|k: int| 0 <= k < i implies (#[trigger] done[k]).len()
                == f@.blocks[k].len() by {
                if k < i - 1 {
                    assert(done[k] == sample_seqs(before)[k]);
                } else {
                    assert(done[k] == last);
                }
            }
            assert forall|k: int, j: int| 0 <= k < i && 0 <= j < f@.blocks[k].len() implies inverse(
                *idct,
                f@.blocks[k][j],
                f@.quant[f@.comps[k].tq as int],
                #[trigger] done[k][j],
            ) by {
                if k < i - 1 {
                    assert(done[k] == sample_seqs(before)[k]);
                    assert(done[k][j] == sample_seqs(before)[k][j]);
                } else {
                    assert(done[k] == last);
                    assert(done[k][j] == last[j]);
                }
            }
        }
    }
    all
}

/// The index of a block lies among the blocks of its component.
proof fn lemma_block_index(across: int, down: int, c: Component, x: int, y: int)
    requires
        1 <= c.hs,
        1 <= c.vs,
        0 <= x < across * c.hs * 8,
        0 <= y < down * c.vs * 8,
    ensures
        0 <= x / 8 / (c.hs as int) && x / 8 / (c.hs as int) < across,
        0 <= y / 8 / (c.vs as int) && y / 8 / (c.vs as int) < down,
        0 <= block_index(across, c, x, y) < across * down * (c.hs * c.vs),
        0 <= (y / 8 / (c.vs as int)) * across + x / 8 / (c.hs as int) < across * down,
{
    let h = c.hs as int;
    let v = c.vs as int;
    let bx = x / 8;
    let by = y / 8;
    let ux = bx / h;
    let uy = by / v;
    let rx = bx % h;
    let ry = by % v;
    assert(bx < across * h);
    assert(by < down * v);
    vstd::arithmetic::div_mod::lemma_fundamental_div_mod(bx, h);
    vstd::arithmetic::div_mod::lemma_fundamental_div_mod(by, v);
    vstd::arithmetic::div_mod::lemma_mod_bound(bx, h);
    vstd::arithmetic::div_mod::lemma_mod_bound(by, v);
    assert(0 <= ux < across) by (nonlinear_arith)
        requires
            bx == h * ux + rx,
            0 <= rx < h,
            0 <= bx < across * h,
    ;
    assert(0 <= uy < down) by (nonlinear_arith)
        requires
            by == v * uy + ry,
            0 <= ry < v,
            0 <= by < down * v,
    ;
    let unit = uy * across + ux;
    assert(0 <= unit < across * down) by (nonlinear_arith)
        requires
            unit == uy * across + ux,
            0 <= ux < across,
            0 <= uy < down,
    ;
    let inner = ry * h + rx;
    assert(0 <= inner < h * v) by (nonlinear_arith)
        requires
            inner == ry * h + rx,
            0 <= rx < h,
            0 <= ry < v,
    ;
    let n = across * down;
    let hv = h * v;
    assert(0 <= unit * hv + inner < n * hv) by (nonlinear_arith)
        requires
            0 <= unit < n,
            0 <= inner < hv,
    ;
}

/// Rows of `w` laid end to end: place `i` is in row `i / w` and column `i % w`.
pub proof fn lemma_row_col(w: int, h: int, i: int)
    requires
        0 < w,
        0 <= i < w * h,
    ensures
        0 <= i % w < w,
        0 <= i / w < h,
        i == (i / w) * w + i % w,
{
    vstd::arithmetic::div_mod::lemma_fundamental_div_mod(i, w);
    vstd::arithmetic::div_mod::lemma_mod_bound(i, w);
    let q = i / w;
    let r = i % w;
    assert(q * w == w * q) by (nonlinear_arith);
    assert(0 <= q < h) by (nonlinear_arith)
        requires
            i == w * q + r,
            0 <= r < w,
            0 <= i < w * h,
    ;
}

/// Column `x` of row `y` is at place `y * w + x`.
proof fn lemma_place(w: int, h: int, x: int, y: int)
    requires
        0 <= x < w,
        0 <= y < h,
    ensures
        0 <= y * w + x < w * h,
        (y * w + x) % w == x,
        (y * w + x) / w == y,
{
    vstd::arithmetic::div_mod::lemma_fundamental_div_mod_converse(y * w + x, w, y, x);
    assert(0 <= y * w + x < w * h) by (nonlinear_arith)
        requires
            0 <= x < w,
            0 <= y < h,
    ;
}

/// How large the numbers are that the samples of a component are found with.
proof fn lemma_plane_bounds(across: int, down: int, c: Component)
    requires
        1 <= across <= 8192,
        1 <= down <= 8192,
        1 <= c.hs <= 15,
        1 <= c.vs <= 15,
        scan::plane_size(across, down, c) <= u32::MAX,
    ensures
        8 <= across * c.hs * 8 <= 983040,
        8 <= down * c.vs * 8 <= 983040,
        0 <= across * down <= 8192 * 8192,
        1 <= c.hs * c.vs <= 225,
        0 <= across * down * (c.hs * c.vs) <= u32::MAX,
{
    let h = c.hs as int;
    let v = c.vs as int;
    assert(1 <= across * h <= 8192 * 15) by (nonlinear_arith)
        requires
            1 <= across <= 8192,
            1 <= h <= 15,
    ;
    assert(1 <= down * v <= 8192 * 15) by (nonlinear_arith)
        requires
            1 <= down <= 8192,
            1 <= v <= 15,
    ;
    assert(0 <= across * down <= 8192 * 8192) by (nonlinear_arith)
        requires
            1 <= across <= 8192,
            1 <= down <= 8192,
    ;
    assert(1 <= h * v <= 225) by (nonlinear_arith)
        requires
            1 <= h <= 15,
            1 <= v <= 15,
    ;
    let a = across * h;
    let b = down * v;
    assert(across * down * (h * v) == a * b) by (nonlinear_arith)
        requires
            a == across * h,
            b == down * v,
    ;
    assert((a * 8) * (b * 8) == 64 * (a * b)) by (nonlinear_arith);
    assert(0 <= a * b) by (nonlinear_arith)
        requires
            1 <= a,
            1 <= b,
    ;
}

/// Lays the samples of a component out row by row.
pub fn plane(across: u32, down: u32, c: Component, samples: &Vec<[u8; 64]>) -> (r: Vec<u8>)
    requires
        1 <= across <= 8192,
        1 <= down <= 8192,
        1 <= c.hs <= 15,
        1 <= c.vs <= 15,
        scan::plane_size(across as int, down as int, c) <= u32::MAX,
        samples@.len() == across * down * (c.hs * c.vs),
    ensures
        r@.len() == (across * c.hs * 8) * (down * c.vs * 8),
        forall|x: int, y: int|
            0 <= x < across * c.hs * 8 && 0 <= y < down * c.vs * 8 ==> #[trigger] r@[y * (across
                * c.hs * 8) + x] == sample_at(samples@, across as int, c, x, y),
{
    proof {
        lemma_plane_bounds(across as int, down as int, c);
    }
    let hs: u32 = c.hs as u32;
    let vs: u32 = c.vs as u32;
    let cw: u32 = across * hs * 8;
    let ch: u32 = down * vs * 8;
    let n: u32 = cw * ch;
    let mut r: Vec<u8> = Vec::new();
    let mut i: u32 = 0;
    while i < n
        invariant
            i <= n,
            n == cw * ch,
            hs == c.hs,
            vs == c.vs,
            1 <= hs <= 15,
            1 <= vs <= 15,
            1 <= across <= 8192,
            1 <= down <= 8192,
            cw == across * c.hs * 8,
            ch == down * c.vs * 8,
            scan::plane_size(across as int, down as int, c) <= u32::MAX,
            samples@.len() == across * down * (c.hs * c.vs),
            r@.len() == i,
            forall|k: int|
                0 <= k < i ==> #[trigger] r@[k] == sample_at(
                    samples@,
                    across as int,
                    c,
                    k % (cw as int),
                    k / (cw as int),
                ),
        decreases n - i,
    {
        proof {
            lemma_plane_bounds(across as int, down as int, c);
            lemma_row_col(cw as int, ch as int, i as int);
            lemma_block_index(
                across as int,
                down as int,
                c,
                i as int % cw as int,
                i as int / cw as int,
            );
        }
        let x: u32 = i % cw;
        let y: u32 = i / cw;
        let bx: u32 = x / 8;
        let by: u32 = y / 8;
        assert(0 <= (by / vs) * across) by (nonlinear_arith)
            requires
                0 <= by / vs,
                0 <= across,
        ;
        let unit: u32 = (by / vs) * across + bx / hs;
        assert(0 <= unit * (hs * vs) && 0 <= (by % vs) * hs) by (nonlinear_arith)
            requires
                0 <= unit,
                0 <= hs,
                0 <= vs,
                0 <= by % vs,
        ;
        let b: u32 = unit * (hs * vs) + (by % vs) * hs + bx % hs;
        assert(b == block_index(across as int, c, x as int, y as int));
        r.push(samples[b as usize][((y % 8) * 8 + x % 8) as usize]);
        i += 1;
    }
    assert forall|x: int, y: int|
        0 <= x < across * c.hs * 8 && 0 <= y < down * c.vs * 8 implies #[trigger] r@[y * (across
        * c.hs * 8) + x] == sample_at(samples@, across as int, c, x, y) by {
        lemma_place(cw as int, ch as int, x, y);
    }
    r
}

/// `p` holds the samples of component `i` row by row.
spec fn laid_out(f: FrameView, samples: Seq<Seq<[u8; 64]>>, i: int, p: Seq<u8>) -> bool {
    &&& p.len() == plane_width(f, i) * plane_height(f, i)
    &&& forall|x: int, y: int|
        0 <= x < plane_width(f, i) && 0 <= y < plane_height(f, i) ==> #[trigger] p[y * plane_width(
            f,
            i,
        ) + x] == sample_at(samples[i], f.across, f.comps[i], x, y)
}

/// Scaling a place below `w` to a range of `n` stays below `n`.
proof fn lemma_scaled(x: int, n: int, w: int)
    requires
        0 <= x < w,
        1 <= n,
    ensures
        0 <= x * n / w < n,
        0 <= x * n <= (w - 1) * n,
{
    let t = x * n;
    vstd::arithmetic::div_mod::lemma_fundamental_div_mod(t, w);
    vstd::arithmetic::div_mod::lemma_mod_bound(t, w);
    let q = t / w;
    let r = t % w;
    assert(0 <= t <= (w - 1) * n) by (nonlinear_arith)
        requires
            t == x * n,
            0 <= x < w,
            1 <= n,
    ;
    assert(0 <= q < n) by (nonlinear_arith)
        requires
            t == w * q + r,
            0 <= r < w,
            0 <= t <= (w - 1) * n,
            1 <= n,
            0 < w,
    ;
}

/// The sample of a component that shows at a point.
fn shown(
    f: &Frame,
    i: usize,
    p: &Vec<u8>,
    x: u32,
    y: u32,
    Ghost(samples): Ghost<Seq<Seq<[u8; 64]>>>,
) -> (r: u8)
    requires
        scan::frame_wf(f@),
        paintable(f@),
        i < f@.comps.len(),
        laid_out(f@, samples, i as int, p@),
        x < f@.width,
        y < f@.height,
    ensures
        r == shown_at(f@, samples, i as int, x as int, y as int),
{
    let c: Component = f.comps[i];
    proof {
        assert(scan::comp_wf(f@, i as int));
        assert(comp_paintable(f@, i as int));
        lemma_plane_bounds(f@.across, f@.down, c);
        lemma_scaled(x as int, plane_width(f@, i as int), f@.width);
        lemma_scaled(y as int, plane_height(f@, i as int), f@.height);
    }
    let cw: u32 = f.across * c.hs as u32 * 8;
    let ch: u32 = f.down * c.vs as u32 * 8;
    let sx: u32 = x * cw / f.width;
    let sy: u32 = y * ch / f.height;
    proof {
        lemma_place(cw as int, ch as int, sx as int, sy as int);
        assert(0 <= sy * cw) by (nonlinear_arith)
            requires
                0 <= sy,
                0 <= cw,
        ;
    }
    p[(sy * cw + sx) as usize]
}

/// Paints the samples of a frame.
pub fn paint<G: Fn(u8, u8, u8) -> (u8, u8, u8)>(
    f: &Frame,
    samples: &Vec<Vec<[u8; 64]>>,
    to_rgb: &G,
) -> (img: Image)
    requires
        scan::frame_wf(f@),
        paintable(f@),
        samples@.len() == f@.blocks.len(),
        forall|i: int|
            0 <= i < samples@.len() ==> (#[trigger] samples@[i])@.len() == f@.blocks[i].len(),
        forall|a: u8, b: u8, c: u8| call_requires(*to_rgb, (a, b, c)),
    ensures
        img.wf(),
        painted(f@, sample_seqs(samples@), *to_rgb, img@),
{
    let ghost all = sample_seqs(samples@);
    let mut planes: Vec<Vec<u8>> = Vec::new();
    let mut k: usize = 0;
    while k < f.comps.len()
        invariant
            k <= f.comps@.len(),
            scan::frame_wf(f@),
            paintable(f@),
            all == sample_seqs(samples@),
            samples@.len() == f@.blocks.len(),
            forall|i: int|
                0 <= i < samples@.len() ==> (#[trigger] samples@[i])@.len() == f@.blocks[i].len(),
            planes@.len() == k,
            forall|i: int| 0 <= i < k ==> laid_out(f@, all, i, (#[trigger] planes@[i])@),
        decreases f.comps@.len() - k,
    {
        assert(scan::comp_wf(f@, k as int));
        assert(comp_paintable(f@, k as int));
        assert(samples@[k as int]@.len() == f@.blocks[k as int].len());
        let p = plane(f.across, f.down, f.comps[k], &samples[k]);
        assert(laid_out(f@, all, k as int, p@));
        planes.push(p);
        k += 1;
    }
    assert(f@.width * f@.height >= 1) by (nonlinear_arith)
        requires
            f@.width >= 1,
            f@.height >= 1,
    ;
    let n: u32 = f.width * f.height;
    let grey: bool = f.comps.len() == 1;
    let mut rgb: Vec<u8> = Vec::new();
    let mut i: u32 = 0;
    while i < n
        invariant
            i <= n,
            n == f@.width * f@.height,
            scan::frame_wf(f@),
            paintable(f@),
            grey == (f@.comps.len() == 1),
            planes@.len() == f@.comps.len(),
            forall|j: int|
                0 <= j < planes@.len() ==> laid_out(f@, all, j, (#[trigger] planes@[j])@),
            forall|a: u8, b: u8, c: u8| call_requires(*to_rgb, (a, b, c)),
            rgb@.len() == 3 * i,
            forall|j: int|
                0 <= j < i ==> shows(
                    f@,
                    all,
                    *to_rgb,
                    j % f@.width,
                    j / f@.width,
                    #[trigger] color_at(rgb@, j),
                ),
        decreases n - i,
    {
        proof {
            lemma_row_col(f@.width, f@.height, i as int);
        }
        let x: u32 = i % f.width;
        let y: u32 = i / f.width;
        assert(laid_out(f@, all, 0, planes@[0]@));
        let v: u8 = shown(f, 0, &planes[0], x, y, Ghost(all));
        let (r, g, b): (u8, u8, u8) = if grey {
            (v, v, v)
        } else {
            assert(laid_out(f@, all, 1, planes@[1]@));
            assert(laid_out(f@, all, 2, planes@[2]@));
            let cb: u8 = shown(f, 1, &planes[1], x, y, Ghost(all));
            let cr: u8 = shown(f, 2, &planes[2], x, y, Ghost(all));
            to_rgb(v, cb, cr)
        };
        let ghost before = rgb@;
        rgb.push(r);
        rgb.push(g);
        rgb.push(b);
        i += 1;
        proof {
            assert forall|j: int| 0 <= j < i implies shows(
                f@,
                all,
                *to_rgb,
                j % f@.width,
                j / f@.width,
                #[trigger] color_at(rgb@, j),
            ) by {
                if j < i - 1 {
                    assert(color_at(rgb@, j) == color_at(before, j));
                } else {
                    assert(color_at(rgb@, j) == (Color { r, g, b }));
                }
            }
        }
    }
    assert(n * 3 == f.width * f.height * 3);
    let ghost pixels = rgb@;
    let img = Image::from_rgb(f.width, f.height, rgb);
    assert forall|x: int, y: int| img@.has(x, y) implies shows(
        f@,
        all,
        *to_rgb,
        x,
        y,
        #[trigger] img@.pixel(x, y),
    ) by {
        lemma_place(f@.width, f@.height, x, y);
        let j = y * f@.width + x;
        assert(shows(f@, all, *to_rgb, j % f@.width, j / f@.width, color_at(pixels, j)));
        assert(img@.pixel(x, y) == color_at(pixels, j));
    }
    img
}

/// The colour of the pixel with number `j`.
spec fn color_at(rgb: Seq<u8>, j: int) -> Color {
    Color { r: rgb[3 * j], g: rgb[3 * j + 1], b: rgb[3 * j + 2] }
}

/// Whether a frame can be painted.
pub fn can_paint(f: &Frame) -> (r: bool)
    requires
        scan::frame_wf(f@),
    ensures
        r == paintable(f@),
{
    assert(0 <= f@.width * f@.height <= 0xFFFF * 0xFFFF) by (nonlinear_arith)
        requires
            0 <= f@.width <= 0xFFFF,
            0 <= f@.height <= 0xFFFF,
    ;
    if f.width as u64 * f.height as u64 * 3 > u32::MAX as u64 {
        return false;
    }
    let mut i: usize = 0;
    while i < f.comps.len()
        invariant
            i <= f.comps@.len(),
            scan::frame_wf(f@),
            f@.width * f@.height * 3 <= u32::MAX,
            forall|k: int| 0 <= k < i ==> comp_paintable(f@, k),
        decreases f.comps@.len() - i,
    {
        let c: Component = f.comps[i];
        assert(scan::comp_wf(f@, i as int));
        if c.hs == 0 || c.vs == 0 {
            assert(!comp_paintable(f@, i as int));
            return false;
        }
        proof {
            lemma_plane_bounds(f@.across, f@.down, c);
        }
        let cw: u64 = f.across as u64 * c.hs as u64 * 8;
        let ch: u64 = f.down as u64 * c.vs as u64 * 8;
        assert(0 <= (f@.width - 1) * cw <= 0xFFFF * 983040 && 0 <= (f@.height - 1) * ch <= 0xFFFF
            * 983040) by (nonlinear_arith)
            requires
                1 <= f@.width <= 0xFFFF,
                1 <= f@.height <= 0xFFFF,
                0 <= cw <= 983040,
                0 <= ch <= 983040,
        ;
        if (f.width as u64 - 1) * cw > u32::MAX as u64 || (f.height as u64 - 1) * ch
            > u32::MAX as u64 {
            assert(!comp_paintable(f@, i as int));
            return false;
        }
        i += 1;
    }
    true
}

} // verus!
