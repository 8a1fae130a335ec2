//! A picture is coded like its extension to whole squares.
use vstd::prelude::*;

use crate::image::Picture;
use crate::jpg::encode;
use crate::jpg::scan;
use crate::jpg::writer;

verus! {

/// `big` is the picture `p` with its last column and its last row repeated up to whole squares of
/// eight by eight pixels.
pub open spec fn extends(p: Picture, big: Picture) -> bool {
    &&& big.wf()
    &&& big.width == scan::pieces(p.width, 8) * 8
    &&& big.height == scan::pieces(p.height, 8) * 8
    &&& forall|x: int, y: int|
        big.has(x, y) ==> #[trigger] big.pixel(x, y) == p.pixel(
            encode::clipped(x, p.width),
            encode::clipped(y, p.height),
        )
}

/// A file with another size in its frame header.
pub open spec fn with_size(file: Seq<u8>, w: int, h: int) -> Seq<u8> {
    file.take(159) + encode::be16_bytes(h) + encode::be16_bytes(w) + file.skip(163)
}

/// What the forward transform makes of a square does not vary.
pub open spec fn steady<F: Fn([u8; 64], [u8; 64], [u8; 64], usize) -> [i32; 64]>(
    forward: F,
) -> bool {
    forall|r: [u8; 64], g: [u8; 64], b: [u8; 64], ci: usize, s: [i32; 64], t: [i32; 64]| #[trigger]
        call_ensures(forward, (r, g, b, ci), s) && #[trigger] call_ensures(
            forward,
            (r, g, b, ci),
            t,
        ) ==> s == t
}

/// A picture and its extension have as many squares.
proof fn lemma_same_pieces(p: Picture, big: Picture)
    requires
        encode::encodable(p),
        extends(p, big),
    ensures
        scan::pieces(big.width, 8) == scan::pieces(p.width, 8),
        scan::pieces(big.height, 8) == scan::pieces(p.height, 8),
        1 <= scan::pieces(p.width, 8),
        1 <= scan::pieces(p.height, 8),
{
    scan::lemma_pieces(p.width, 8);
    scan::lemma_pieces(p.height, 8);
}

/// A picture and its extension have the same squares.
proof fn lemma_same_square(p: Picture, big: Picture, channel: int, mx: int, my: int)
    requires
        encode::encodable(p),
        extends(p, big),
        0 <= channel < 3,
        0 <= mx < scan::pieces(p.width, 8),
        0 <= my < scan::pieces(p.height, 8),
    ensures
        encode::square(big, channel, mx, my) == encode::square(p, channel, mx, my),
{
    let a = encode::square(big, channel, mx, my);
    let b = encode::square(p, channel, mx, my);
    assert forall|i: int| 0 <= i < 64 implies a[i] == b[i] by {
        let x = 8 * mx + i % 8;
        let y = 8 * my + i / 8;
        assert(big.has(x, y));
        assert(big.pixel(x, y) == p.pixel(
            encode::clipped(x, p.width),
            encode::clipped(y, p.height),
        ));
    }
    assert(a =~= b);
}

/// A block of a picture is a block of its extension, and the other way round.
proof fn lemma_same_block<F: Fn([u8; 64], [u8; 64], [u8; 64], usize) -> [i32; 64]>(
    forward: F,
    p: Picture,
    big: Picture,
    n: int,
    block: Seq<i32>,
)
    requires
        encode::encodable(p),
        extends(p, big),
        0 <= n < scan::pieces(p.width, 8) * scan::pieces(p.height, 8) * 3,
    ensures
        encode::picture_block(forward, big, n, block) == encode::picture_block(
            forward,
            p,
            n,
            block,
        ),
{
    lemma_same_pieces(p, big);
    let across = scan::pieces(p.width, 8);
    let down = scan::pieces(p.height, 8);
    let unit = n / 3;
    let mx = unit % across;
    let my = unit / across;
    vstd::arithmetic::div_mod::lemma_fundamental_div_mod(unit, across);
    vstd::arithmetic::div_mod::lemma_mod_bound(unit, across);
    assert(0 <= my < down) by (nonlinear_arith)
        requires
            unit == across * my + mx,
            0 <= mx < across,
            0 <= unit < across * down,
    ;
    lemma_same_square(p, big, 0, mx, my);
    lemma_same_square(p, big, 1, mx, my);
    lemma_same_square(p, big, 2, mx, my);
    if encode::picture_block(forward, p, n, block) {
        let d = choose|d: Seq<i32>| #[trigger]
            encode::forward_of(forward, p, mx, my, n % 3, d) && block == encode::quantized_block(
                d,
                encode::table_of(n % 3),
            );
        assert(encode::forward_of(forward, big, mx, my, n % 3, d));
    }
    if encode::picture_block(forward, big, n, block) {
        let d = choose|d: Seq<i32>| #[trigger]
            encode::forward_of(forward, big, mx, my, n % 3, d) && block == encode::quantized_block(
                d,
                encode::table_of(n % 3),
            );
        assert(encode::forward_of(forward, p, mx, my, n % 3, d));
    }
}

/// A picture and its extension to whole squares have the same blocks.
pub proof fn law_extension_has_the_same_blocks<
    F: Fn([u8; 64], [u8; 64], [u8; 64], usize) -> [i32; 64],
>(forward: F, p: Picture, big: Picture, blocks: Seq<Seq<i32>>)
    requires
        encode::encodable(p),
        extends(p, big),
    ensures
        encode::picture_blocks(forward, big, blocks) <==> encode::picture_blocks(
            forward,
            p,
            blocks,
        ),
{
    lemma_same_pieces(p, big);
    if blocks.len() == scan::pieces(p.width, 8) * scan::pieces(p.height, 8) * 3 {
        assert forall|n: int| 0 <= n < blocks.len() implies encode::picture_block(
            forward,
            big,
            n,
            #[trigger] blocks[n],
        ) == encode::picture_block(forward, p, n, blocks[n]) by {
            lemma_same_block(forward, p, big, n, blocks[n]);
        }
    }
}

/// The size stands in four bytes of a file and nowhere else.
pub proof fn law_size_bytes(w: int, h: int, w2: int, h2: int, blocks: Seq<Seq<i32>>)
    ensures
        encode::stream(w2, h2, blocks) == with_size(encode::stream(w, h, blocks), w2, h2),
        encode::stream(w2, h2, blocks).len() == encode::stream(w, h, blocks).len(),
        forall|i: int|
            0 <= i < encode::stream(w, h, blocks).len() && !(159 <= i < 163)
                ==> #[trigger] encode::stream(w2, h2, blocks)[i] == encode::stream(
                w,
                h,
                blocks,
            )[i],
{
    let front = encode::intro_bytes() + encode::quant_segment();
    let mark = seq![0xFFu8, 0xC0, 0x00, 0x11, 0x08];
    let comps = seq![0x03u8, 0x01, 0x11, 0x00, 0x02, 0x11, 0x01, 0x03, 0x11, 0x01];
    let data = writer::entropy_coded(encode::blocks_bits(blocks, blocks.len() as int));
    let back = comps + encode::huffman_segments() + encode::scan_segment() + data
        + encode::end_bytes();
    assert(front.len() == 154);
    let a = encode::be16_bytes(h) + encode::be16_bytes(w);
    let b = encode::be16_bytes(h2) + encode::be16_bytes(w2);
    assert(encode::stream(w, h, blocks) =~= front + mark + a + back);
    assert(encode::stream(w2, h2, blocks) =~= front + mark + b + back);
    let s = front + mark + a + back;
    assert(s.take(159) =~= front + mark);
    assert(s.skip(163) =~= back);
    assert(with_size(s, w2, h2) =~= front + mark + b + back);
}

/// The file of a picture, with the size of its extension put in, is the file of the extension, and
/// the other way round.
pub proof fn law_extension_has_the_same_file<
    F: Fn([u8; 64], [u8; 64], [u8; 64], usize) -> [i32; 64],
>(forward: F, p: Picture, big: Picture, file: Seq<u8>)
    requires
        encode::encodable(p),
        extends(p, big),
    ensures
        encode::encodes_to(forward, p, file) ==> encode::encodes_to(
            forward,
            big,
            with_size(file, big.width, big.height),
        ),
        encode::encodes_to(forward, big, file) ==> encode::encodes_to(
            forward,
            p,
            with_size(file, p.width, p.height),
        ),
{
    if encode::encodes_to(forward, p, file) {
        let blocks = choose|blocks: Seq<Seq<i32>>|
            {
                &&& encode::picture_blocks(forward, p, blocks)
                &&& encode::blocks_ok(blocks)
                &&& file == #[trigger] encode::stream(p.width, p.height, blocks)
            };
        law_extension_has_the_same_blocks(forward, p, big, blocks);
        law_size_bytes(p.width, p.height, big.width, big.height, blocks);
    }
    if encode::encodes_to(forward, big, file) {
        let blocks = choose|blocks: Seq<Seq<i32>>|
            {
                &&& encode::picture_blocks(forward, big, blocks)
                &&& encode::blocks_ok(blocks)
                &&& file == #[trigger] encode::stream(big.width, big.height, blocks)
            };
        law_extension_has_the_same_blocks(forward, p, big, blocks);
        law_size_bytes(big.width, big.height, p.width, p.height, blocks);
    }
}

/// The coefficients of a square are the same each time.
proof fn lemma_forward_unique<F: Fn([u8; 64], [u8; 64], [u8; 64], usize) -> [i32; 64]>(
    forward: F,
    p: Picture,
    mx: int,
    my: int,
    ci: int,
    d: Seq<i32>,
    e: Seq<i32>,
)
    requires
        steady(forward),
        encode::forward_of(forward, p, mx, my, ci, d),
        encode::forward_of(forward, p, mx, my, ci, e),
    ensures
        d == e,
{
    let (r1, g1, b1, o1) = choose|r: [u8; 64], g: [u8; 64], b: [u8; 64], out: [i32; 64]|
        {
            &&& r@ == encode::square(p, 0, mx, my)
            &&& g@ == encode::square(p, 1, mx, my)
            &&& b@ == encode::square(p, 2, mx, my)
            &&& out@ == d
            &&& #[trigger] call_ensures(forward, (r, g, b, ci as usize), out)
        };
    let (r2, g2, b2, o2) = choose|r: [u8; 64], g: [u8; 64], b: [u8; 64], out: [i32; 64]|
        {
            &&& r@ == encode::square(p, 0, mx, my)
            &&& g@ == encode::square(p, 1, mx, my)
            &&& b@ == encode::square(p, 2, mx, my)
            &&& out@ == e
            &&& #[trigger] call_ensures(forward, (r, g, b, ci as usize), out)
        };
    assert(r1 =~= r2);
    assert(g1 =~= g2);
    assert(b1 =~= b2);
}

/// A picture has one file, as long as the transform does not vary.
pub proof fn law_encoding_is_unique<F: Fn([u8; 64], [u8; 64], [u8; 64], usize) -> [i32; 64]>(
    forward: F,
    p: Picture,
    file: Seq<u8>,
    file2: Seq<u8>,
)
    requires
        steady(forward),
        encode::encodes_to(forward, p, file),
        encode::encodes_to(forward, p, file2),
    ensures
        file == file2,
{
    let s = choose|blocks: Seq<Seq<i32>>|
        {
            &&& encode::picture_blocks(forward, p, blocks)
            &&& encode::blocks_ok(blocks)
            &&& file == #[trigger] encode::stream(p.width, p.height, blocks)
        };
    let t = choose|blocks: Seq<Seq<i32>>|
        {
            &&& encode::picture_blocks(forward, p, blocks)
            &&& encode::blocks_ok(blocks)
            &&& file2 == #[trigger] encode::stream(p.width, p.height, blocks)
        };
    let across = scan::pieces(p.width, 8);
    assert forall|n: int| 0 <= n < s.len() implies #[trigger] s[n] == t[n] by {
        assert(encode::picture_block(forward, p, n, s[n]));
        assert(encode::picture_block(forward, p, n, t[n]));
        let mx = n / 3 % across;
        let my = n / 3 / across;
        let d = choose|d: Seq<i32>| #[trigger]
            encode::forward_of(forward, p, mx, my, n % 3, d) && s[n] == encode::quantized_block(
                d,
                encode::table_of(n % 3),
            );
        let e = choose|e: Seq<i32>| #[trigger]
            encode::forward_of(forward, p, mx, my, n % 3, e) && t[n] == encode::quantized_block(
                e,
                encode::table_of(n % 3),
            );
        lemma_forward_unique(forward, p, mx, my, n % 3, d, e);
    }
    assert(s =~= t);
}

/// A picture is coded like its extension to whole squares: the two files differ in the four bytes
/// of the size at most, as long as the transform does not vary.
pub proof fn law_coded_like_extension<F: Fn([u8; 64], [u8; 64], [u8; 64], usize) -> [i32; 64]>(
    forward: F,
    p: Picture,
    big: Picture,
    file: Seq<u8>,
    file2: Seq<u8>,
)
    requires
        steady(forward),
        encode::encodable(p),
        extends(p, big),
        encode::encodes_to(forward, p, file),
        encode::encodes_to(forward, big, file2),
    ensures
        file2 == with_size(file, big.width, big.height),
        file2.len() == file.len(),
        forall|i: int|
            0 <= i < file.len() && !(159 <= i < 163) ==> #[trigger] file2[i] == file[i],
{
    let blocks = choose|blocks: Seq<Seq<i32>>|
        {
            &&& encode::picture_blocks(forward, p, blocks)
            &&& encode::blocks_ok(blocks)
            &&& file == #[trigger] encode::stream(p.width, p.height, blocks)
        };
    law_extension_has_the_same_file(forward, p, big, file);
    law_encoding_is_unique(forward, big, with_size(file, big.width, big.height), file2);
    law_size_bytes(p.width, p.height, big.width, big.height, blocks);
}

} // verus!
