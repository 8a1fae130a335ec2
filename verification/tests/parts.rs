use raster::jpg::amplitude::{category, extend};
use raster::jpg::encode::{ac_symbols, be16, dc_symbols, Q_CHROMA, Q_LUMA};
use raster::jpg::error::Error;
use raster::jpg::huffman::{codes_fit, EncTable, HTable};
use raster::jpg::reader::BitReader;
use raster::jpg::writer::BitWriter;
use raster::jpg::zigzag::{PLACE, ZIGZAG};

#[test]
fn stuffing_and_markers_in_the_data() {
    let mut r = BitReader::new(&[0x12, 0xFF, 0x00, 0xFF, 0xD3, 0x34, 0xFF, 0xD9, 0x56]);
    assert_eq!(r.next_byte(), Some(0x12));
    assert_eq!(r.next_byte(), Some(0xFF));
    assert_eq!(r.next_byte(), Some(0x34));
    assert_eq!(r.next_byte(), None);
    let mut cut = BitReader::new(&[0xFF]);
    assert_eq!(cut.next_byte(), None);
    let mut none = BitReader::new(&[]);
    assert_eq!(none.bit(), None);
}

#[test]
fn bits_come_most_significant_first() {
    let mut r = BitReader::new(&[0b1010_0110, 0xFF, 0x00, 0x01]);
    assert_eq!(r.bit(), Some(1));
    assert_eq!(r.bit(), Some(0));
    assert_eq!(r.bits(4), Some(0b1001));
    assert_eq!(r.bits(0), Some(0));
    assert_eq!(r.bits(10), Some(0b10_1111_1111));
    assert_eq!(r.bits(9), None);
}

#[test]
fn long_reads_keep_sixteen_bits() {
    let mut r = BitReader::new(&[0xAB, 0xCD, 0xEF]);
    assert_eq!(r.bits(24), Some(0xCDEF));
}

#[test]
fn extend_exact_values() {
    assert_eq!(extend(0, 0), 0);
    assert_eq!(extend(9, 0), 0);
    assert_eq!(extend(0, 1), -1);
    assert_eq!(extend(1, 1), 1);
    assert_eq!(extend(0, 3), -7);
    assert_eq!(extend(3, 3), -4);
    assert_eq!(extend(4, 3), 4);
    assert_eq!(extend(7, 3), 7);
    assert_eq!(extend(0, 11), -2047);
}

#[test]
fn category_exact_values() {
    assert_eq!(category(0), 0);
    assert_eq!(category(1), 1);
    assert_eq!(category(-1), 1);
    assert_eq!(category(2), 2);
    assert_eq!(category(-3), 2);
    assert_eq!(category(1023), 10);
    assert_eq!(category(-1024), 11);
    assert_eq!(category(i32::MAX), 31);
}

#[test]
fn amplitudes_come_back() {
    for v in -1100i32..=1100 {
        let size = category(v);
        let mut w = BitWriter::new();
        w.amplitude(v, size);
        let bytes = w.finish();
        let mut r = BitReader::new(&bytes);
        assert_eq!(extend(r.bits(size).unwrap(), size), v);
    }
}

#[test]
fn writing_pads_with_ones_and_stuffs() {
    let mut w = BitWriter::new();
    w.bits(0b101, 3);
    assert_eq!(w.finish(), vec![0b1011_1111]);
    let mut w = BitWriter::new();
    w.bits(0xFFFF, 16);
    w.bits(0, 4);
    assert_eq!(w.finish(), vec![0xFF, 0x00, 0xFF, 0x00, 0x0F]);
    let mut w = BitWriter::new();
    w.bits(0b1, 1);
    assert_eq!(w.finish(), vec![0xFF, 0x00]);
    assert_eq!(BitWriter::new().finish(), Vec::<u8>::new());
}

#[test]
fn what_is_written_is_read() {
    let mut w = BitWriter::new();
    for n in 0..500u16 {
        w.bits(n, 9);
    }
    let bytes = w.finish();
    let mut r = BitReader::new(&bytes);
    for n in 0..500u16 {
        assert_eq!(r.bits(9), Some(n));
    }
}

#[test]
fn canonical_codes() {
    let mut counts = [0u8; 16];
    counts[1] = 2;
    counts[2] = 3;
    let t = EncTable::build(counts, &[10, 20, 30, 40, 50]);
    assert_eq!(t.code(10), (0b00, 2));
    assert_eq!(t.code(20), (0b01, 2));
    assert_eq!(t.code(30), (0b100, 3));
    assert_eq!(t.code(40), (0b101, 3));
    assert_eq!(t.code(50), (0b110, 3));
    assert_eq!(t.code(60), (0, 0));
}

#[test]
fn symbols_come_back() {
    let mut counts = [0u8; 16];
    counts[1] = 2;
    counts[2] = 3;
    let symbols = vec![10u8, 20, 30, 40, 50];
    let enc = EncTable::build(counts, &symbols);
    let dec = HTable::build(counts, symbols.clone());
    let mut w = BitWriter::new();
    for s in [50u8, 10, 10, 30, 40, 20] {
        let (code, len) = enc.code(s);
        w.bits(code, len);
    }
    let bytes = w.finish();
    let mut r = BitReader::new(&bytes);
    for s in [50u8, 10, 10, 30, 40, 20] {
        assert_eq!(dec.decode(&mut r), Ok(s));
    }
}

#[test]
fn codes_that_do_not_stand_for_a_symbol() {
    let mut counts = [0u8; 16];
    counts[0] = 1;
    let t = HTable::build(counts, vec![7]);
    let mut ones = BitReader::new(&[0xFF, 0x00, 0xFF, 0x00]);
    assert_eq!(t.decode(&mut ones), Err(Error::BadHuffman));
    let mut short = BitReader::new(&[0xFF, 0x00]);
    assert_eq!(t.decode(&mut short), Err(Error::Truncated));
    let mut zero = BitReader::new(&[0x7F]);
    assert_eq!(t.decode(&mut zero), Ok(7));
}

#[test]
fn missing_symbols_leave_codes_unused() {
    let mut counts = [0u8; 16];
    counts[0] = 1;
    counts[1] = 1;
    let t = HTable::build(counts, vec![7]);
    let mut r = BitReader::new(&[0b1000_0000, 0x00, 0x00]);
    assert_eq!(t.decode(&mut r), Err(Error::BadHuffman));
}

#[test]
fn counts_that_overflow_a_code() {
    let mut counts = [0u8; 16];
    assert!(codes_fit(&counts));
    counts[7] = 162;
    assert!(codes_fit(&counts));
    let mut tight = [0u8; 16];
    tight[7] = 255;
    for l in 8..16 {
        tight[l] = 1;
    }
    assert!(codes_fit(&tight));
    tight[15] = 2;
    assert!(!codes_fit(&tight));
    assert!(codes_fit(&[255; 16]));
}

#[test]
fn symbols_of_the_encoder() {
    assert_eq!(dc_symbols(), (0u8..12).collect::<Vec<u8>>());
    let ac = ac_symbols();
    assert_eq!(ac.len(), 162);
    assert_eq!(ac[..4], [0x00, 0xF0, 0x01, 0x02]);
    assert_eq!(ac[11], 0x0A);
    assert_eq!(ac[12], 0x11);
    assert_eq!(ac[161], 0xFA);
    let mut sorted = ac.clone();
    sorted.sort();
    sorted.dedup();
    assert_eq!(sorted.len(), 162);
}

#[test]
fn zigzag_and_its_inverse() {
    for k in 0..64usize {
        assert_eq!(PLACE[ZIGZAG[k]], k);
        assert_eq!(ZIGZAG[PLACE[k]], k);
    }
    assert_eq!(ZIGZAG[2], 8);
    assert_eq!(ZIGZAG[63], 63);
}

#[test]
fn quantization_tables() {
    assert_eq!(Q_LUMA[0], 16);
    assert_eq!(Q_LUMA[63], 99);
    assert_eq!(Q_CHROMA[0], 17);
    assert_eq!(Q_CHROMA[63], 99);
}

#[test]
fn two_bytes_high_first() {
    let mut out = vec![1u8];
    be16(0xABCD, &mut out);
    assert_eq!(out, vec![1, 0xAB, 0xCD]);
}
