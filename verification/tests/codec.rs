use raster::color::Color;
use raster::image::Image;
use raster::jpg::decode::{decode, decode_checked};
use raster::jpg::encode::{encode_blocks, encode_image, Q_CHROMA, Q_LUMA};
use raster::jpg::error::Error;
use raster::jpg::header::{read_header, Component};
use raster::jpg::scan::read_frame;
use raster::jpg::zigzag::ZIGZAG;

/// A kernel that shows the first coefficient, times its step, on a base of 100.
fn flat(b: [i32; 64], q: [u16; 64]) -> [u8; 64] {
    [(b[0] * q[0] as i32 + 100).clamp(0, 255) as u8; 64]
}

/// A kernel that shows every coefficient at its place.
fn plain(b: [i32; 64], q: [u16; 64]) -> [u8; 64] {
    let mut s = [0u8; 64];
    for j in 0..64 {
        s[j] = (b[j] * q[j] as i32).clamp(0, 255) as u8;
    }
    s
}

fn same(y: u8, cb: u8, cr: u8) -> (u8, u8, u8) {
    (y, cb, cr)
}

fn cosine(k: usize) -> f32 {
    (k as f32 * std::f32::consts::PI / 16.0).cos()
}

fn scale(u: usize) -> f32 {
    if u == 0 {
        std::f32::consts::FRAC_1_SQRT_2
    } else {
        1.0
    }
}

fn forward(r: [u8; 64], g: [u8; 64], b: [u8; 64], ci: usize) -> [i32; 64] {
    let mut f = [0f32; 64];
    for i in 0..64 {
        let (r, g, b) = (r[i] as f32, g[i] as f32, b[i] as f32);
        f[i] = match ci {
            0 => 0.299 * r + 0.587 * g + 0.114 * b - 128.0,
            1 => -0.168736 * r - 0.331264 * g + 0.5 * b,
            _ => 0.5 * r - 0.418688 * g - 0.081312 * b,
        };
    }
    let mut out = [0i32; 64];
    for v in 0..8 {
        for u in 0..8 {
            let mut s = 0.0;
            for y in 0..8 {
                for x in 0..8 {
                    s += f[y * 8 + x] * cosine((2 * x + 1) * u) * cosine((2 * y + 1) * v);
                }
            }
            out[v * 8 + u] = (0.25 * scale(u) * scale(v) * s).round() as i32;
        }
    }
    out
}

fn inverse(b: [i32; 64], q: [u16; 64]) -> [u8; 64] {
    let mut s = [0u8; 64];
    for y in 0..8 {
        for x in 0..8 {
            let mut t = 0.0;
            for v in 0..8 {
                for u in 0..8 {
                    t += scale(u)
                        * scale(v)
                        * b[v * 8 + u] as f32
                        * q[v * 8 + u] as f32
                        * cosine((2 * x + 1) * u)
                        * cosine((2 * y + 1) * v);
                }
            }
            s[y * 8 + x] = (0.25 * t + 128.0).clamp(0.0, 255.0) as u8;
        }
    }
    s
}

fn to_rgb(y: u8, cb: u8, cr: u8) -> (u8, u8, u8) {
    let y = y as f32;
    let cb = cb as f32 - 128.0;
    let cr = cr as f32 - 128.0;
    (
        (y + 1.402 * cr).clamp(0.0, 255.0) as u8,
        (y - 0.344136 * cb - 0.714136 * cr).clamp(0.0, 255.0) as u8,
        (y + 1.772 * cb).clamp(0.0, 255.0) as u8,
    )
}

fn segment(out: &mut Vec<u8>, marker: u8, body: &[u8]) {
    let len = body.len() + 2;
    out.extend_from_slice(&[0xFF, marker, (len / 256) as u8, (len % 256) as u8]);
    out.extend_from_slice(body);
}

/// Sizes 0 and 3 for first coefficients; the end of a block, and one coefficient of one bit behind
/// two zeros, for the others.
fn tables(out: &mut Vec<u8>) {
    let mut dc = vec![0x00, 2];
    dc.extend_from_slice(&[0; 15]);
    dc.extend_from_slice(&[0, 3]);
    segment(out, 0xC4, &dc);
    let mut ac = vec![0x10, 1, 1];
    ac.extend_from_slice(&[0; 14]);
    ac.extend_from_slice(&[0x00, 0x21]);
    segment(out, 0xC4, &ac);
}

fn grey(w: u8, h: u8, scan: &[u8]) -> Vec<u8> {
    let mut f = vec![0xFF, 0xD8];
    segment(&mut f, 0xC0, &[8, 0, h, 0, w, 1, 9, 0x11, 0]);
    tables(&mut f);
    segment(&mut f, 0xDA, &[1, 9, 0x00, 0, 63, 0]);
    f.extend_from_slice(scan);
    f
}

fn error_of(data: &[u8]) -> Option<Error> {
    match decode_checked(data, &flat, &same) {
        Some(Err(e)) => Some(e),
        _ => None,
    }
}

#[test]
fn grey_block() {
    // Size 3, then 101, then the end of the block.
    let f = grey(8, 8, &[0b1101_0111, 0xFF, 0xD9]);
    let img = decode(&f, &flat, &same).ok().unwrap();
    assert_eq!((img.width(), img.height()), (8, 8));
    assert_eq!(img.as_rgb(), &[105u8; 192][..]);
}

#[test]
fn grey_picture_without_an_end_marker() {
    let f = grey(3, 2, &[0b1101_0111]);
    let img = decode(&f, &flat, &same).ok().unwrap();
    assert_eq!(img.as_rgb(), &[105u8; 18][..]);
}

#[test]
fn narrow_pictures_show_the_whole_plane() {
    // The coefficient behind two zeros stands in column 0 of row 2, which the last row of a
    // picture of four rows shows at its second row.
    let f = grey(8, 4, &[0b0101_0111]);
    let img = decode(&f, &plain, &same).ok().unwrap();
    assert_eq!(img.get_pixel(0, 1), Some(Color::rgb(1, 1, 1)));
    assert_eq!(img.get_pixel(0, 0), Some(Color::rgb(0, 0, 0)));
    assert_eq!(img.get_pixel(0, 2), Some(Color::rgb(0, 0, 0)));
}

#[test]
fn first_coefficients_add_up() {
    // Two blocks: 5, then 7 more.
    let f = grey(16, 8, &[0b1101_0111, 0b1001_1111]);
    match read_frame(&f) {
        Some(Ok(frame)) => {
            assert_eq!(frame.across, 2);
            assert_eq!(frame.down, 1);
            assert_eq!(frame.blocks.len(), 1);
            assert_eq!(frame.blocks[0].len(), 2);
            assert_eq!(frame.blocks[0][0][0], 5);
            assert_eq!(frame.blocks[0][1][0], 12);
        }
        _ => panic!("not read"),
    }
    let img = decode(&f, &flat, &same).ok().unwrap();
    assert_eq!(img.get_pixel(7, 0), Some(Color::rgb(105, 105, 105)));
    assert_eq!(img.get_pixel(8, 7), Some(Color::rgb(112, 112, 112)));
}

#[test]
fn restart_markers_drop_the_rest_of_a_byte() {
    let f = grey(16, 8, &[0b1101_0000, 0xFF, 0xD0, 0b1111_0000]);
    match read_frame(&f) {
        Some(Ok(frame)) => {
            assert_eq!(frame.blocks[0][0][0], 5);
            assert_eq!(frame.blocks[0][1][0], 5);
        }
        _ => panic!("not read"),
    }
}

#[test]
fn subsampled_chroma() {
    let mut f = vec![0xFF, 0xD8];
    segment(&mut f, 0xC0, &[8, 0, 8, 0, 16, 3, 1, 0x21, 0, 2, 0x11, 0, 3, 0x11, 0]);
    tables(&mut f);
    segment(&mut f, 0xDA, &[3, 1, 0x00, 2, 0x00, 3, 0x00, 0, 63, 0]);
    // Luma 5 and 5 + 7, blue 0, red -5.
    f.extend_from_slice(&[0b1101_0111, 0b1000_1010, 0b0111_1111]);
    let img = decode(&f, &flat, &same).ok().unwrap();
    for y in 0..8 {
        for x in 0..8 {
            assert_eq!(img.get_pixel(x, y), Some(Color::rgb(105, 100, 95)));
            assert_eq!(img.get_pixel(x + 8, y), Some(Color::rgb(112, 100, 95)));
        }
    }
}

#[test]
fn quantization_tables_of_both_widths() {
    let mut f = vec![0xFF, 0xD8];
    let mut narrow = vec![0x00];
    narrow.extend(1u8..=64);
    let mut wide = vec![0x13];
    for j in 0..64u16 {
        wide.extend_from_slice(&(1000 + j).to_be_bytes());
    }
    narrow.extend_from_slice(&wide);
    segment(&mut f, 0xDB, &narrow);
    match read_header(&f) {
        Some(Ok((h, start))) => {
            assert_eq!(start, 0);
            assert_eq!(h.quant[0][0], 1);
            assert_eq!(h.quant[0][1], 2);
            assert_eq!(h.quant[0][8], 3);
            assert_eq!(h.quant[0][63], 64);
            assert_eq!(h.quant[1], [1; 64]);
            assert_eq!(h.quant[3][16], 1003);
        }
        _ => panic!("not read"),
    }
}

#[test]
fn header_of_a_frame() {
    let f = grey(8, 4, &[]);
    match read_header(&f) {
        Some(Ok((h, start))) => {
            assert_eq!((h.width, h.height), (8, 4));
            assert_eq!(start, f.len());
            assert_eq!(h.comps, vec![Component { id: 9, hs: 1, vs: 1, tq: 0, dc: 0, ac: 0 }]);
        }
        _ => panic!("not read"),
    }
}

#[test]
fn bytes_between_segments_are_skipped() {
    let mut f = vec![0xFF, 0xD8, 1, 2, 3];
    f.extend_from_slice(&grey(8, 8, &[0b1101_0111])[2..]);
    let img = decode(&f, &flat, &same).ok().unwrap();
    assert_eq!(img.as_rgb()[0], 105);
}

#[test]
fn not_jpeg() {
    assert_eq!(error_of(&[]), Some(Error::NotJpeg));
    assert_eq!(error_of(&[0xFF]), Some(Error::NotJpeg));
    assert_eq!(error_of(&[0xFF, 0xD9]), Some(Error::NotJpeg));
    assert_eq!(error_of(&[0x00, 0xD8]), Some(Error::NotJpeg));
}

#[test]
fn truncated() {
    assert_eq!(error_of(&[0xFF, 0xD8]), Some(Error::Truncated));
    assert_eq!(error_of(&[0xFF, 0xD8, 0xFF, 0xD9]), Some(Error::Truncated));
    assert_eq!(error_of(&[0xFF, 0xD8, 0xFF, 0xDA]), Some(Error::Truncated));
    assert_eq!(error_of(&[0xFF, 0xD8, 0xFF, 0xE0, 0, 1]), Some(Error::Truncated));
    assert_eq!(error_of(&[0xFF, 0xD8, 0xFF, 0xE0, 0, 3]), Some(Error::Truncated));
    assert_eq!(error_of(&[0xFF, 0xD8, 0xFF, 0xDB, 0, 3, 0x04]), Some(Error::Truncated));
    assert_eq!(error_of(&[0xFF, 0xD8, 0xFF, 0xDB, 0, 3, 0x00]), Some(Error::Truncated));
    assert_eq!(error_of(&[0xFF, 0xD8, 0xFF, 0xDB, 0, 3, 0x10]), Some(Error::Truncated));
    let mut f = vec![0xFF, 0xD8];
    let mut body = vec![0x00, 1];
    body.extend_from_slice(&[0; 15]);
    segment(&mut f, 0xC4, &body);
    assert_eq!(error_of(&f), Some(Error::Truncated));
    assert_eq!(error_of(&grey(0, 8, &[])), Some(Error::Truncated));
    assert_eq!(error_of(&grey(8, 0, &[])), Some(Error::Truncated));
    assert_eq!(error_of(&grey(8, 8, &[])), Some(Error::Truncated));
    assert_eq!(error_of(&grey(16, 8, &[0b1101_0111])), Some(Error::Truncated));
}

#[test]
fn unsupported() {
    assert_eq!(error_of(&[0xFF, 0xD8, 0xFF, 0xC2, 0, 2]), Some(Error::Unsupported));
    let mut two = vec![0xFF, 0xD8];
    segment(&mut two, 0xC0, &[8, 0, 8, 0, 8, 2, 1, 0x11, 0, 2, 0x11, 0]);
    assert_eq!(error_of(&two), Some(Error::Unsupported));
}

#[test]
fn bad_huffman() {
    let mut f = vec![0xFF, 0xD8];
    segment(&mut f, 0xC0, &[8, 0, 8, 0, 8, 1, 9, 0x11, 0]);
    assert_eq!(error_of(&f), Some(Error::BadHuffman));
    // No code for other coefficients begins with two ones.
    assert_eq!(
        error_of(&grey(8, 8, &[0b0111_1111, 0xFF, 0x00, 0xFF, 0x00])),
        Some(Error::BadHuffman)
    );
    // Runs of three zeros that leave the block.
    let mut run = full_of_runs();
    let at = run.iter().position(|b| *b == 0x21).unwrap();
    run[at] = 0x31;
    assert_eq!(error_of(&run), Some(Error::BadHuffman));
}

/// A block of 21 runs of two zeros and a one.
fn full_of_runs() -> Vec<u8> {
    let mut scan = vec![0b0101_1011];
    scan.extend_from_slice(&[0b0110_1101, 0b1011_0110, 0b1101_1011].repeat(4));
    grey(8, 8, &scan)
}

#[test]
fn a_full_block_needs_no_end() {
    match read_frame(&full_of_runs()) {
        Some(Ok(frame)) => {
            let mut expected = [0i32; 64];
            for k in 1..22 {
                expected[ZIGZAG[3 * k]] = 1;
            }
            assert_eq!(frame.blocks[0][0], expected);
        }
        _ => panic!("not read"),
    }
}

#[test]
fn data_without_a_reading() {
    assert!(decode_checked(&[0xFF, 0xD8, 0xFF, 0xC0, 0, 2], &flat, &same).is_none());
    assert!(decode_checked(&[0xFF, 0xD8, 0xFF, 0xDB], &flat, &same).is_none());
    assert!(decode_checked(&[0xFF, 0xD8, 0xFF, 0xDA, 0, 2], &flat, &same).is_none());
}

#[test]
fn an_encoded_grey_picture_byte_by_byte() {
    let img = Image::from_rgb(8, 8, vec![128; 192]);
    let f = encode_image(&img, &forward).unwrap();
    assert_eq!(f.len(), 619 + 5 + 2);
    assert_eq!(f[..20], [
        0xFF, 0xD8, 0xFF, 0xE0, 0x00, 0x10, 0x4A, 0x46, 0x49, 0x46, 0x00, 0x01, 0x01, 0x00, 0x00,
        0x01, 0x00, 0x01, 0x00, 0x00,
    ]);
    assert_eq!(f[20..29], [0xFF, 0xDB, 0x00, 0x84, 0x00, 16, 11, 12, 14]);
    assert_eq!(f[89], 0x01);
    assert_eq!(f[90..93], [17, 18, 18]);
    assert_eq!(f[154..173], [
        0xFF, 0xC0, 0, 17, 8, 0, 8, 0, 8, 3, 1, 0x11, 0, 2, 0x11, 1, 3, 0x11, 1,
    ]);
    assert_eq!(f[173..178], [0xFF, 0xC4, 0, 31, 0x00]);
    assert_eq!(f[605..619], [
        0xFF, 0xDA, 0x00, 0x0C, 0x03, 0x01, 0x00, 0x02, 0x11, 0x03, 0x11, 0x00, 0x3F, 0x00,
    ]);
    assert_eq!(f[619..], [0, 0, 0, 0, 0x0F, 0xFF, 0xD9]);
    let back = decode(&f, &inverse, &to_rgb).ok().unwrap();
    assert_eq!(back.as_rgb(), &[128u8; 192][..]);
}

#[test]
fn sizes_that_are_not_encoded() {
    assert_eq!(encode_image(&Image::new(0, 5), &forward), Err(Error::Encode));
    assert_eq!(encode_image(&Image::new(5, 0), &forward), Err(Error::Encode));
    assert_eq!(encode_image(&Image::new(65501, 1), &forward), Err(Error::Encode));
    assert_eq!(encode_image(&Image::new(1, 65501), &forward), Err(Error::Encode));
    assert!(encode_image(&Image::new(65500, 1), &|_, _, _, _| [0; 64]).is_ok());
}

#[test]
fn halves_round_away_from_zero() {
    let mut d = [0i32; 64];
    d[0] = 24;
    d[1] = -6;
    d[2] = 4;
    d[63] = -50;
    let img = Image::new(8, 8);
    let f = encode_image(&img, &|_, _, _, _| d).unwrap();
    match read_frame(&f) {
        Some(Ok(frame)) => {
            let luma = frame.blocks[0][0];
            assert_eq!((luma[0], luma[1], luma[2], luma[63]), (2, -1, 0, -1));
            let blue = frame.blocks[1][0];
            assert_eq!((blue[0], blue[1], blue[2], blue[63]), (1, 0, 0, -1));
        }
        _ => panic!("not read"),
    }
}

#[test]
fn edges_repeat_in_the_last_squares() {
    let img = Image::from_rgb(9, 1, (0..27).collect());
    let seen = std::cell::RefCell::new(Vec::new());
    let f = encode_image(&img, &|r: [u8; 64], g: [u8; 64], b: [u8; 64], ci: usize| {
        seen.borrow_mut().push((r, g, b, ci));
        [0; 64]
    });
    assert!(f.is_ok());
    let seen = seen.into_inner();
    assert_eq!(seen.len(), 6);
    assert_eq!(seen[0].0[..8], [0, 3, 6, 9, 12, 15, 18, 21]);
    assert_eq!(seen[1].1[56..], [1, 4, 7, 10, 13, 16, 19, 22]);
    assert_eq!(seen[5].2, [26; 64]);
    for n in 0..6 {
        assert_eq!(seen[n].3, n % 3);
    }
}

#[test]
fn coded_blocks_come_back() {
    let mut blocks = vec![[0i32; 64]; 12];
    blocks[0][0] = 1023;
    blocks[3][0] = -1023;
    blocks[6][0] = 0;
    for j in 1..64 {
        blocks[1][j] = (j as i32 * 37) % 2047 - 1023;
    }
    // Long runs of zeros, with and without a coefficient at the very end.
    blocks[2][63] = -1;
    blocks[4][1] = 5;
    blocks[4][62] = 1023;
    blocks[5][33] = -1023;
    blocks[7][0] = -512;
    blocks[8][17] = 1;
    let f = encode_blocks(16, 15, &blocks);
    match read_frame(&f) {
        Some(Ok(frame)) => {
            assert_eq!((frame.width, frame.height), (16, 15));
            assert_eq!((frame.across, frame.down), (2, 2));
            assert_eq!(frame.quant[0], Q_LUMA);
            assert_eq!(frame.quant[1], Q_CHROMA);
            for n in 0..12 {
                assert_eq!(frame.blocks[n % 3][n / 3], blocks[n]);
            }
        }
        _ => panic!("not read"),
    }
}

#[test]
fn pictures_come_back_roughly() {
    let mut img = Image::new(32, 24);
    for y in 0..24u32 {
        for x in 0..32u32 {
            img.put_pixel(x, y, Color::rgb((x * 4) as u8, (y * 5) as u8, (x * 2 + y * 3) as u8));
        }
    }
    let f = encode_image(&img, &forward).unwrap();
    let back = decode(&f, &inverse, &to_rgb).ok().unwrap();
    assert_eq!((back.width(), back.height()), (32, 24));
    for (a, b) in img.as_rgb().iter().zip(back.as_rgb()) {
        let d = *a as i32 - *b as i32;
        assert!(d.abs() <= 32);
    }
}

#[test]
fn odd_sizes_come_back() {
    for (w, h) in [(1, 1), (7, 9), (8, 1), (17, 5)] {
        let img = Image::from_rgb(w, h, vec![200; (w * h * 3) as usize]);
        let f = encode_image(&img, &forward).unwrap();
        let back = decode(&f, &inverse, &to_rgb).ok().unwrap();
        assert_eq!((back.width(), back.height()), (w, h));
        for b in back.as_rgb() {
            assert!((*b as i32 - 200).abs() <= 2);
        }
    }
}

#[test]
fn bytes_behind_the_scan_do_not_matter() {
    let tails: [&[u8]; 4] = [&[0xFF, 0xD9], &[0x00], &[0xFF, 0xDA, 0, 2, 0, 0], &[0xFF; 9]];
    for tail in tails {
        let mut f = grey(16, 8, &[0b1101_0111, 0b1001_1111]);
        let before = decode(&f, &flat, &same).ok().unwrap();
        f.extend_from_slice(tail);
        let after = decode(&f, &flat, &same).ok().unwrap();
        assert_eq!((after.width(), after.height()), (before.width(), before.height()));
        assert_eq!(after.as_rgb(), before.as_rgb());
    }
}

#[test]
fn comments_and_application_segments_are_skipped() {
    let plain_file = grey(8, 8, &[0b1101_0111]);
    for m in [0xFE, 0xE0, 0xE7, 0xEF] {
        let bodies: [&[u8]; 3] = [&[], &[0xFF, 0xD9, 0xFF, 0xDA], &[7; 700]];
        for body in bodies {
            let mut f = vec![0xFF, 0xD8];
            segment(&mut f, m, body);
            f.extend_from_slice(&plain_file[2..]);
            let img = decode(&f, &flat, &same).ok().unwrap();
            assert_eq!(img.as_rgb(), &[105u8; 192][..]);
            // The same errors, too.
            f.pop();
            assert_eq!(error_of(&f), error_of(&plain_file[..plain_file.len() - 1]));
            assert_eq!(error_of(&f), Some(Error::Truncated));
        }
    }
}

#[test]
fn a_picture_is_coded_like_its_extension() {
    let (w, h) = (11u32, 5u32);
    let mut img = Image::new(w, h);
    for y in 0..h {
        for x in 0..w {
            img.put_pixel(x, y, Color::rgb((x * 20) as u8, (y * 40) as u8, (x * y) as u8));
        }
    }
    let mut big = Image::new(16, 8);
    for y in 0..8 {
        for x in 0..16 {
            big.put_pixel(x, y, img.get_pixel(x.min(w - 1), y.min(h - 1)).unwrap());
        }
    }
    let v = encode_image(&img, &forward).unwrap();
    let v2 = encode_image(&big, &forward).unwrap();
    assert_eq!(v2.len(), v.len());
    assert_eq!(v[159..163], [0, 5, 0, 11]);
    assert_eq!(v2[159..163], [0, 8, 0, 16]);
    assert_eq!(v2[..159], v[..159]);
    assert_eq!(v2[163..], v[163..]);
}
