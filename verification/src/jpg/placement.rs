//! Where things go: blocks in a plane, samples over pixels, and pixels in the squares that are
//! coded.
use vstd::arithmetic::div_mod;
use vstd::prelude::*;

use crate::color::Color;
use crate::image::Picture;
use crate::jpg::decode;
use crate::jpg::encode;
use crate::jpg::error::Error;
use crate::jpg::frame;
use crate::jpg::header::Component;
use crate::jpg::round_trip;
use crate::jpg::scan;
use crate::jpg::scan::FrameView;

verus! {

/// A number is taken apart by size: `x == (m * h + b) * 8 + u` gives `u`, `b` and `m` back.
proof fn lemma_digits(m: int, h: int, b: int, u: int)
    requires
        0 <= m,
        0 <= b < h,
        0 <= u < 8,
    ensures
        ({
            let x = (m * h + b) * 8 + u;
            &&& 0 <= x
            &&& x / 8 == m * h + b
            &&& x % 8 == u
            &&& x / 8 / h == m
            &&& (x / 8) % h == b
        }),
{
    let t = m * h + b;
    assert(0 <= t) by (nonlinear_arith)
        requires
            t == m * h + b,
            0 <= m,
            0 <= b,
            0 < h,
    ;
    div_mod::lemma_fundamental_div_mod_converse(t, h, m, b);
}

/// The blocks of a coding unit come row by row, and so do the units: block `by * hs + bx` of the unit
/// in column `mx` and row `my` lies in the plane of its component with its corner at column
/// `(mx * hs + bx) * 8` and row `(my * vs + by) * 8`.
pub proof fn law_block_lands(
    samples: Seq<[u8; 64]>,
    across: int,
    c: Component,
    mx: int,
    my: int,
    bx: int,
    by: int,
    u: int,
    v: int,
)
    requires
        0 <= mx < across,
        0 <= my,
        0 <= bx < c.hs,
        0 <= by < c.vs,
        0 <= u < 8,
        0 <= v < 8,
    ensures
        frame::sample_at(
            samples,
            across,
            c,
            (mx * c.hs + bx) * 8 + u,
            (my * c.vs + by) * 8 + v,
        ) == samples[(my * across + mx) * (c.hs * c.vs) + by * c.hs + bx]@[8 * v + u],
{
    lemma_digits(mx, c.hs as int, bx, u);
    lemma_digits(my, c.vs as int, by, v);
}

/// A sample is shown where it stands when the plane is laid over the picture: at pixel `x` of
/// `width` that of place `sx` with `sx / plane <= x / width < (sx + 1) / plane`.
pub proof fn law_sample_shown(
    f: FrameView,
    samples: Seq<Seq<[u8; 64]>>,
    i: int,
    x: int,
    y: int,
    sx: int,
    sy: int,
)
    requires
        0 < f.width,
        0 < f.height,
        sx * f.width <= x * (f.across * f.comps[i].hs * 8) < (sx + 1) * f.width,
        sy * f.height <= y * (f.down * f.comps[i].vs * 8) < (sy + 1) * f.height,
    ensures
        frame::shown_at(f, samples, i, x, y) == frame::sample_at(
            samples[i],
            f.across,
            f.comps[i],
            sx,
            sy,
        ),
{
    lemma_quotient(x * (f.across * f.comps[i].hs * 8), f.width, sx);
    lemma_quotient(y * (f.down * f.comps[i].vs * 8), f.height, sy);
}

proof fn lemma_quotient(t: int, n: int, q: int)
    requires
        0 < n,
        q * n <= t < (q + 1) * n,
    ensures
        t / n == q,
{
    let r = t - q * n;
    assert((q + 1) * n == q * n + n) by (nonlinear_arith);
    div_mod::lemma_fundamental_div_mod_converse(t, n, q, r);
}

/// In a picture of whole coding units a component with one block where the largest has `k` shows
/// each of its samples `k` times in a row: pixel `x` shows sample `x / k`.
pub proof fn law_subsampled(
    f: FrameView,
    samples: Seq<Seq<[u8; 64]>>,
    i: int,
    j: int,
    l: int,
    x: int,
    y: int,
)
    requires
        0 < f.width,
        0 < f.height,
        0 <= x,
        0 <= y,
        1 <= j,
        1 <= l,
        f.width == f.across * (f.comps[i].hs * j) * 8,
        f.height == f.down * (f.comps[i].vs * l) * 8,
    ensures
        frame::shown_at(f, samples, i, x, y) == frame::sample_at(
            samples[i],
            f.across,
            f.comps[i],
            x / j,
            y / l,
        ),
{
    lemma_repeats(f.across, f.comps[i].hs as int, j, x, f.width);
    lemma_repeats(f.down, f.comps[i].vs as int, l, y, f.height);
    law_sample_shown(f, samples, i, x, y, x / j, y / l);
}

proof fn lemma_repeats(a: int, h: int, j: int, x: int, n: int)
    requires
        1 <= j,
        0 < n,
        n == a * (h * j) * 8,
    ensures
        (x / j) * n <= x * (a * h * 8) < (x / j + 1) * n,
{
    let pw = a * h * 8;
    assert(n == pw * j) by (nonlinear_arith)
        requires
            n == a * (h * j) * 8,
            pw == a * h * 8,
    ;
    assert(0 < pw) by (nonlinear_arith)
        requires
            0 < n,
            n == pw * j,
            1 <= j,
    ;
    let q = x / j;
    let r = x % j;
    div_mod::lemma_fundamental_div_mod(x, j);
    div_mod::lemma_mod_bound(x, j);
    assert(q * n <= x * pw < (q + 1) * n) by (nonlinear_arith)
        requires
            n == pw * j,
            0 < pw,
            x == j * q + r,
            0 <= r < j,
    ;
}

/// Block `n` of a component is number `by * hs + bx` of the unit in column `mx` and row `my`.
pub open spec fn block_number(
    across: int,
    c: Component,
    n: int,
    mx: int,
    my: int,
    bx: int,
    by: int,
) -> bool {
    &&& 0 <= mx < across
    &&& 0 <= my
    &&& 0 <= bx < c.hs
    &&& 0 <= by < c.vs
    &&& n == (my * across + mx) * (c.hs * c.vs) + by * c.hs + bx
}

/// Place `k` of block `n` of a component lies in column `sx` and row `sy` of its plane.
pub open spec fn lies_at(across: int, c: Component, n: int, k: int, sx: int, sy: int) -> bool {
    exists|mx: int, my: int, bx: int, by: int|
        {
            &&& #[trigger] block_number(across, c, n, mx, my, bx, by)
            &&& 0 <= sx - (mx * c.hs + bx) * 8 < 8
            &&& 0 <= sy - (my * c.vs + by) * 8 < 8
            &&& k == 8 * (sy - (my * c.vs + by) * 8) + (sx - (mx * c.hs + bx) * 8)
        }
}

/// `v` is the sample of component `i` that stands over pixel `(x, y)`.
pub open spec fn stands_over(
    f: FrameView,
    samples: Seq<Seq<[u8; 64]>>,
    i: int,
    x: int,
    y: int,
    v: u8,
) -> bool {
    exists|n: int, k: int, sx: int, sy: int|
        {
            &&& #[trigger] lies_at(f.across, f.comps[i], n, k, sx, sy)
            &&& sx * f.width <= x * (f.across * f.comps[i].hs * 8) < (sx + 1) * f.width
            &&& sy * f.height <= y * (f.down * f.comps[i].vs * 8) < (sy + 1) * f.height
            &&& v == samples[i][n]@[k]
        }
}

/// A pixel is grey, as bright as the one sample over it, or the colour of the three samples over it.
pub open spec fn colored_by<G: Fn(u8, u8, u8) -> (u8, u8, u8)>(
    f: FrameView,
    samples: Seq<Seq<[u8; 64]>>,
    to_rgb: G,
    x: int,
    y: int,
    c: Color,
) -> bool {
    if f.comps.len() == 1 {
        c.r == c.g == c.b && stands_over(f, samples, 0, x, y, c.r)
    } else {
        exists|v0: u8, v1: u8, v2: u8|
            {
                &&& stands_over(f, samples, 0, x, y, v0)
                &&& stands_over(f, samples, 1, x, y, v1)
                &&& stands_over(f, samples, 2, x, y, v2)
                &&& #[trigger] call_ensures(to_rgb, (v0, v1, v2), (c.r, c.g, c.b))
            }
    }
}

/// Scaling a place below `n` to `a * h * 8` places stays among them.
proof fn lemma_scaled(x: int, n: int, a: int, h: int)
    requires
        0 <= x < n,
        1 <= a,
        1 <= h,
    ensures
        ({
            let m = a * h * 8;
            let s = x * m / n;
            &&& 0 <= s < m
            &&& s * n <= x * m < (s + 1) * n
        }),
{
    let m = a * h * 8;
    assert(0 < m) by (nonlinear_arith)
        requires
            m == a * h * 8,
            1 <= a,
            1 <= h,
    ;
    let t = x * m;
    let q = t / n;
    let r = t % n;
    div_mod::lemma_fundamental_div_mod(t, n);
    div_mod::lemma_mod_bound(t, n);
    assert(q * n <= t < (q + 1) * n) by (nonlinear_arith)
        requires
            t == n * q + r,
            0 <= r < n,
    ;
    assert(0 <= q < m) by (nonlinear_arith)
        requires
            t == x * m,
            t == n * q + r,
            0 <= r < n,
            0 <= x < n,
            0 < m,
    ;
}

/// A place is made up of a unit, a block and a place in the block.
proof fn lemma_taken_apart(s: int, a: int, h: int)
    requires
        0 <= s < a * h * 8,
        1 <= h,
    ensures
        0 <= s / 8 / h < a,
        0 <= (s / 8) % h < h,
        s == ((s / 8 / h) * h + (s / 8) % h) * 8 + s % 8,
{
    let t = s / 8;
    let m = t / h;
    let b = t % h;
    div_mod::lemma_fundamental_div_mod(t, h);
    div_mod::lemma_mod_bound(t, h);
    assert(h * m == m * h) by (nonlinear_arith);
    assert(0 <= t < a * h);
    assert(0 <= m < a) by (nonlinear_arith)
        requires
            t == h * m + b,
            0 <= b < h,
            0 <= t < a * h,
    ;
}

/// A sample that is shown stands over its pixel.
proof fn lemma_stands_over(f: FrameView, samples: Seq<Seq<[u8; 64]>>, i: int, x: int, y: int)
    requires
        0 <= x < f.width,
        0 <= y < f.height,
        1 <= f.across,
        1 <= f.down,
        1 <= f.comps[i].hs,
        1 <= f.comps[i].vs,
    ensures
        stands_over(f, samples, i, x, y, frame::shown_at(f, samples, i, x, y)),
{
    let c = f.comps[i];
    let sx = x * (f.across * c.hs * 8) / f.width;
    let sy = y * (f.down * c.vs * 8) / f.height;
    lemma_scaled(x, f.width, f.across, c.hs as int);
    lemma_scaled(y, f.height, f.down, c.vs as int);
    lemma_taken_apart(sx, f.across, c.hs as int);
    lemma_taken_apart(sy, f.down, c.vs as int);
    let mx = sx / 8 / (c.hs as int);
    let bx = (sx / 8) % (c.hs as int);
    let my = sy / 8 / (c.vs as int);
    let by = (sy / 8) % (c.vs as int);
    let n = (my * f.across + mx) * (c.hs * c.vs) + by * c.hs + bx;
    let k = 8 * (sy % 8) + sx % 8;
    assert(block_number(f.across, c, n, mx, my, bx, by));
    assert(lies_at(f.across, c, n, k, sx, sy));
    law_block_lands(samples[i], f.across, c, mx, my, bx, by, sx % 8, sy % 8);
    law_sample_shown(f, samples, i, x, y, sx, sy);
}

/// `idct` gave the samples `s` for these coefficients and these steps.
pub open spec fn from_idct<F: Fn([i32; 64], [u16; 64]) -> [u8; 64]>(
    idct: F,
    block: Seq<i32>,
    steps: Seq<u16>,
    s: [u8; 64],
) -> bool {
    exists|b: [i32; 64], q: [u16; 64]|
        b@ == block && q@ == steps && #[trigger] call_ensures(idct, (b, q), s)
}

/// Every block of samples is what `idct` makes of the block of coefficients in its place and of the
/// quantization table that its component has.
pub open spec fn made_by<F: Fn([i32; 64], [u16; 64]) -> [u8; 64]>(
    f: FrameView,
    idct: F,
    samples: Seq<Seq<[u8; 64]>>,
) -> bool {
    forall|i: int, j: int|
        0 <= i < f.comps.len() && 0 <= j < f.blocks[i].len() ==> from_idct(
            idct,
            f.blocks[i][j],
            f.quant[f.comps[i].tq as int],
            #[trigger] samples[i][j],
        )
}

/// Every pixel of a decoded picture has its colour from the samples that stand over it: block by
/// block in each coding unit, unit by unit, each plane laid over the whole picture.
pub proof fn law_pixels_from_samples<
    F: Fn([i32; 64], [u16; 64]) -> [u8; 64],
    G: Fn(u8, u8, u8) -> (u8, u8, u8),
>(data: Seq<u8>, idct: F, to_rgb: G, p: Picture)
    requires
        decode::decodable(data),
        decode::depicts(data, idct, to_rgb, p),
    ensures
        scan::frame_of(data) matches Some(Ok(f)) && p.width == f.width && p.height == f.height
            && exists|samples: Seq<Seq<[u8; 64]>>| #[trigger]
            made_by(f, idct, samples) && forall|x: int, y: int|
                0 <= x < f.width && 0 <= y < f.height ==> colored_by(
                    f,
                    samples,
                    to_rgb,
                    x,
                    y,
                    #[trigger] p.pixel(x, y),
                ),
{
    let f = scan::frame_of(data)->0->Ok_0;
    scan::law_frame_wf(data);
    let samples = choose|samples: Seq<Seq<[u8; 64]>>|
        frame::transformed(f, idct, samples) && #[trigger] frame::painted(f, samples, to_rgb, p);
    assert forall|i: int, j: int|
        0 <= i < f.comps.len() && 0 <= j < f.blocks[i].len() implies from_idct(
        idct,
        f.blocks[i][j],
        f.quant[f.comps[i].tq as int],
        #[trigger] samples[i][j],
    ) by {
        assert(frame::inverse(
            idct,
            f.blocks[i][j],
            f.quant[f.comps[i].tq as int],
            samples[i][j],
        ));
    }
    assert(made_by(f, idct, samples));
    assert forall|x: int, y: int| 0 <= x < f.width && 0 <= y < f.height implies colored_by(
        f,
        samples,
        to_rgb,
        x,
        y,
        #[trigger] p.pixel(x, y),
    ) by {
        assert(p.has(x, y));
        assert(frame::shows(f, samples, to_rgb, x, y, p.pixel(x, y)));
        assert(frame::comp_paintable(f, 0));
        lemma_stands_over(f, samples, 0, x, y);
        if f.comps.len() != 1 {
            assert(frame::comp_paintable(f, 1));
            assert(frame::comp_paintable(f, 2));
            lemma_stands_over(f, samples, 1, x, y);
            lemma_stands_over(f, samples, 2, x, y);
        }
    }
}

/// The place of row `row` and column `col` in a square, row by row.
pub open spec fn row_by_row(row: int, col: int) -> int {
    8 * row + col
}

/// The last place of `n` for a place beyond.
pub open spec fn inside(x: int, n: int) -> int {
    if x >= n {
        n - 1
    } else {
        x
    }
}

/// `r`, `g` and `b` are the channels of the square of pixels whose corner is `(8 * mx, 8 * my)`, row
/// by row. Past the edge of the picture its last column and its last row repeat.
pub open spec fn channels_of(
    p: Picture,
    mx: int,
    my: int,
    r: [u8; 64],
    g: [u8; 64],
    b: [u8; 64],
) -> bool {
    forall|row: int, col: int|
        #![trigger row_by_row(row, col)]
        0 <= row < 8 && 0 <= col < 8 ==> (Color {
            r: r@[row_by_row(row, col)],
            g: g@[row_by_row(row, col)],
            b: b@[row_by_row(row, col)],
        }) == p.pixel(inside(8 * mx + col, p.width), inside(8 * my + row, p.height))
}

/// Every coefficient of a block, times its step, is that of `d` with an error of at most half a
/// step.
pub open spec fn rounded(d: [i32; 64], table: Seq<u16>, block: Seq<i32>) -> bool {
    block.len() == 64 && forall|j: int|
        0 <= j < 64 ==> -(table[j] as int) <= 2 * (d@[j] - #[trigger] block[j] * table[j])
            <= table[j]
}

/// A block is what the forward transform makes of component `ci` of a square, divided by the steps
/// of a table.
pub open spec fn made_of<E: Fn([u8; 64], [u8; 64], [u8; 64], usize) -> [i32; 64]>(
    forward: E,
    p: Picture,
    mx: int,
    my: int,
    ci: int,
    table: Seq<u16>,
    block: Seq<i32>,
) -> bool {
    exists|r: [u8; 64], g: [u8; 64], b: [u8; 64], d: [i32; 64]|
        {
            &&& channels_of(p, mx, my, r, g, b)
            &&& #[trigger] call_ensures(forward, (r, g, b, ci as usize), d)
            &&& rounded(d, table, block)
        }
}

/// The forward transform is handed the pixels of a square row by row.
proof fn lemma_channels(
    p: Picture,
    mx: int,
    my: int,
    r: [u8; 64],
    g: [u8; 64],
    b: [u8; 64],
)
    requires
        r@ == encode::square(p, 0, mx, my),
        g@ == encode::square(p, 1, mx, my),
        b@ == encode::square(p, 2, mx, my),
    ensures
        channels_of(p, mx, my, r, g, b),
{
    assert forall|row: int, col: int|
        #![trigger row_by_row(row, col)]
        0 <= row < 8 && 0 <= col < 8 implies (Color {
        r: r@[row_by_row(row, col)],
        g: g@[row_by_row(row, col)],
        b: b@[row_by_row(row, col)],
    }) == p.pixel(inside(8 * mx + col, p.width), inside(8 * my + row, p.height)) by {
        let i = row_by_row(row, col);
        assert(0 <= i < 64 && i / 8 == row && i % 8 == col);
        assert(r@[i] == encode::square(p, 0, mx, my)[i]);
        assert(g@[i] == encode::square(p, 1, mx, my)[i]);
        assert(b@[i] == encode::square(p, 2, mx, my)[i]);
    }
}

/// Dividing by the steps and rounding.
proof fn lemma_rounded(d: [i32; 64], ci: int)
    requires
        forall|j: int| 0 <= j < 64 ==> i32::MIN < #[trigger] d@[j] <= i32::MAX,
    ensures
        rounded(d, encode::table_of(ci), encode::quantized_block(d@, encode::table_of(ci))),
{
    let table = encode::table_of(ci);
    let block = encode::quantized_block(d@, table);
    encode::lemma_steps(ci);
    assert forall|j: int| 0 <= j < 64 implies -(table[j] as int) <= 2 * (d@[j]
        - #[trigger] block[j] * table[j]) <= table[j] by {
        let v = d@[j] as int;
        let q = table[j] as int;
        assert(10 <= table[j] <= 121);
        encode::law_quantized(v, q);
        let z = encode::quantized(v, q);
        assert(i32::MIN <= z <= i32::MAX) by (nonlinear_arith)
            requires
                -q <= 2 * (v - z * q) <= q,
                10 <= q <= 121,
                -0x8000_0000 < v <= 0x7FFF_FFFF,
        ;
        assert(block[j] == z);
    }
}

/// In the file of a picture the block in column `mx` and row `my` of component `ci` is made of the
/// pixels of the square there, row by row, red, green and blue in their places.
pub proof fn law_blocks_from_pixels<E: Fn([u8; 64], [u8; 64], [u8; 64], usize) -> [i32; 64]>(
    forward: E,
    p: Picture,
    file: Seq<u8>,
    mx: int,
    my: int,
    ci: int,
)
    requires
        encode::encodable(p),
        encode::bounded(forward),
        encode::encodes_to(forward, p, file),
        0 <= mx,
        0 <= my,
        8 * mx < p.width,
        8 * my < p.height,
        0 <= ci < 3,
    ensures
        scan::frame_of(file) matches Some(Ok(f)) && {
            &&& f.width == p.width
            &&& f.height == p.height
            &&& f.comps.len() == 3
            &&& f.comps[ci].hs == 1
            &&& f.comps[ci].vs == 1
            &&& p.width <= 8 * f.across < p.width + 8
            &&& p.height <= 8 * f.down < p.height + 8
            &&& made_of(
                forward,
                p,
                mx,
                my,
                ci,
                f.quant[f.comps[ci].tq as int],
                f.blocks[ci][my * f.across + mx],
            )
        },
{
    let blocks = choose|blocks: Seq<Seq<i32>>|
        {
            &&& encode::picture_blocks(forward, p, blocks)
            &&& encode::blocks_ok(blocks)
            &&& file == #[trigger] encode::stream(p.width, p.height, blocks)
        };
    round_trip::law_stream_round_trip(p.width, p.height, blocks);
    let f = round_trip::coded_frame(p.width, p.height, blocks);
    assert(scan::frame_of(file) == Some(Ok::<FrameView, Error>(f)));
    scan::lemma_pieces(p.width, 8);
    scan::lemma_pieces(p.height, 8);
    let a = f.across;
    let unit = my * a + mx;
    assert(0 <= unit < a * f.down) by (nonlinear_arith)
        requires
            unit == my * a + mx,
            0 <= mx < a,
            0 <= my < f.down,
    ;
    div_mod::lemma_fundamental_div_mod_converse(unit, a, my, mx);
    let n = 3 * unit + ci;
    assert(n / 3 == unit && n % 3 == ci);
    let block = blocks[n];
    assert(f.blocks[ci].len() == a * f.down);
    assert(f.blocks[ci][unit] == block);
    assert(f.quant[f.comps[ci].tq as int] == encode::table_of(ci));
    assert(encode::picture_block(forward, p, n, block));
    lemma_made_of(forward, p, mx, my, ci, block);
}

proof fn lemma_made_of<E: Fn([u8; 64], [u8; 64], [u8; 64], usize) -> [i32; 64]>(
    forward: E,
    p: Picture,
    mx: int,
    my: int,
    ci: int,
    block: Seq<i32>,
)
    requires
        encode::bounded(forward),
        exists|d: Seq<i32>| #[trigger]
            encode::forward_of(forward, p, mx, my, ci, d) && block == encode::quantized_block(
                d,
                encode::table_of(ci),
            ),
    ensures
        made_of(forward, p, mx, my, ci, encode::table_of(ci), block),
{
    let d = choose|d: Seq<i32>| #[trigger]
        encode::forward_of(forward, p, mx, my, ci, d) && block == encode::quantized_block(
            d,
            encode::table_of(ci),
        );
    let (r, g, b, out) = choose|r: [u8; 64], g: [u8; 64], b: [u8; 64], out: [i32; 64]|
        {
            &&& r@ == encode::square(p, 0, mx, my)
            &&& g@ == encode::square(p, 1, mx, my)
            &&& b@ == encode::square(p, 2, mx, my)
            &&& out@ == d
            &&& #[trigger] call_ensures(forward, (r, g, b, ci as usize), out)
        };
    lemma_channels(p, mx, my, r, g, b);
    assert forall|j: int| 0 <= j < 64 implies i32::MIN < #[trigger] out@[j] <= i32::MAX by {}
    lemma_rounded(out, ci);
}

} // verus!
