use raster::image::Image;
use raster::jpg::decode::decode;
use raster::jpg::encode::encode_image;
use raster::jpg::error::Error;
use raster::jpg::transport::{
    load, map_request, map_returned, mmap, mmap_start, save, save_request, save_start, to_cstring, MapStep,
    MappedFile, SaveStep,
};
use raster::platform;
use raster::platform::{
    errno, mapped, stat_size, write_all, write_all_start, Syscall, WriteStep,
};

fn call(number: usize, args: [usize; 6]) -> Syscall {
    Syscall { number, args }
}

fn zeros(_: [u8; 64], _: [u8; 64], _: [u8; 64], _: usize) -> [i32; 64] {
    [0; 64]
}

fn flat(b: [i32; 64], _: [u16; 64]) -> [u8; 64] {
    [(b[0] + 7) as u8; 64]
}

fn same(y: u8, cb: u8, cr: u8) -> (u8, u8, u8) {
    (y, cb, cr)
}

#[test]
fn results_of_system_calls() {
    assert_eq!(errno(0), Ok(0));
    assert_eq!(errno(17), Ok(17));
    assert_eq!(errno(-1), Err(1));
    assert_eq!(errno(-2), Err(2));
    assert_eq!(errno(-4095), Err(4095));
    assert_eq!(errno(-4096), Ok(-4096isize as usize));
}

#[test]
fn addresses_of_mappings() {
    assert_eq!(mapped(0x1000), Ok(0x1000));
    assert_eq!(mapped(-12), Err(12));
    assert_eq!(mapped(-1), Err(1));
    assert_eq!(mapped(-5000), Err(5000));
}

#[test]
fn sizes_out_of_a_status() {
    let mut stat = [0xAAu8; 144];
    stat[48..56].copy_from_slice(&0x0102_0304_0506_0708u64.to_le_bytes());
    assert_eq!(stat_size(0, &stat), Ok(0x0102_0304_0506_0708));
    stat[48..56].copy_from_slice(&u64::MAX.to_le_bytes());
    assert_eq!(stat_size(0, &stat), Ok(u64::MAX));
    assert_eq!(stat_size(-9, &stat), Err(9));
}

#[test]
fn requests() {
    assert_eq!(
        platform::open(0x10, 0x241, 0o644),
        call(257, [-100isize as usize, 0x10, 0x241, 0o644, 0, 0])
    );
    assert_eq!(platform::close(3), call(3, [3, 0, 0, 0, 0, 0]));
    assert_eq!(platform::close(-1), call(3, [usize::MAX, 0, 0, 0, 0, 0]));
    assert_eq!(platform::write(3, 0x10, 5), call(1, [3, 0x10, 5, 0, 0, 0]));
    assert_eq!(platform::file_size(3, 0x10), call(5, [3, 0x10, 0, 0, 0, 0]));
    assert_eq!(platform::mmap(9, 1, 2, 3, 4), call(9, [0, 9, 1, 2, 3, 4]));
    assert_eq!(platform::munmap(0x10, 9), call(11, [0x10, 9, 0, 0, 0, 0]));
}

#[test]
fn writing_everything() {
    assert_eq!(write_all_start(0), WriteStep::Done(Ok(())));
    assert_eq!(write_all_start(10), WriteStep::Write(0));
    assert_eq!(write_all(10, 0, Ok(4)), WriteStep::Write(4));
    assert_eq!(write_all(10, 4, Ok(6)), WriteStep::Done(Ok(())));
    assert_eq!(write_all(10, 4, Ok(0)), WriteStep::Done(Err(5)));
    assert_eq!(write_all(10, 4, Err(28)), WriteStep::Done(Err(28)));
}

#[test]
fn names_end_in_a_zero() {
    assert_eq!(to_cstring("a.jpg"), b"a.jpg\0".to_vec());
    assert_eq!(to_cstring(""), vec![0]);
    assert_eq!(to_cstring("\u{e9}"), vec![0xC3, 0xA9, 0]);
}

/// Maps a file against given replies, and tells the numbers of the system calls and the outcome.
fn map_with(
    opened: Result<usize, i32>,
    size: Result<usize, i32>,
    address: Result<usize, i32>,
) -> (Vec<usize>, Result<MappedFile, Error>) {
    let mut calls = Vec::new();
    let mut step = mmap_start("p.jpg");
    loop {
        match map_request(&step, 0x77) {
            Some(c) => calls.push(c.number),
            None => {}
        }
        let reply = match &step {
            MapStep::Open { path } => {
                assert_eq!(path, &b"p.jpg\0".to_vec());
                opened
            }
            MapStep::Stat { fd } => {
                assert_eq!(*fd, 4);
                size
            }
            MapStep::MapFile { fd, len } => {
                assert_eq!(*fd, 4);
                assert_eq!(Ok(*len), size);
                address
            }
            MapStep::Close { fd, outcome: _ } => {
                assert_eq!(*fd, 4);
                Err(9)
            }
            MapStep::Done(outcome) => return (calls, *outcome),
        };
        step = mmap(step, reply);
    }
}

#[test]
fn mapping_a_file() {
    assert_eq!(
        map_with(Ok(4), Ok(100), Ok(0x5000)),
        (vec![257, 5, 9, 3], Ok(MappedFile { ptr: 0x5000, len: 100 }))
    );
    assert_eq!(map_with(Err(2), Ok(100), Ok(0x5000)), (vec![257], Err(Error::Open(2))));
    assert_eq!(map_with(Ok(4), Err(5), Ok(0x5000)), (vec![257, 5, 3], Err(Error::Stat(5))));
    assert_eq!(map_with(Ok(4), Ok(0), Ok(0x5000)), (vec![257, 5, 3], Err(Error::Empty)));
    assert_eq!(map_with(Ok(4), Ok(100), Err(12)), (vec![257, 5, 9, 3], Err(Error::Mapping(12))));
}

#[test]
fn requests_of_mapping() {
    let open = MapStep::Open { path: vec![0] };
    assert_eq!(map_request(&open, 8), Some(call(257, [-100isize as usize, 8, 0, 0, 0, 0])));
    assert_eq!(map_request(&MapStep::Stat { fd: 4 }, 8), Some(call(5, [4, 8, 0, 0, 0, 0])));
    assert_eq!(
        map_request(&MapStep::MapFile { fd: 4, len: 100 }, 8),
        Some(call(9, [0, 100, 1, 2, 4, 0]))
    );
    assert_eq!(map_request(&MapStep::Done(Err(Error::Empty)), 8), None);
}

/// Saves an image to a file that takes at most `most` bytes at a time, and fails from the reply
/// number `fail` on.
fn save_with(most: usize, fail: usize, reply: Result<usize, i32>) -> (Vec<u8>, Vec<usize>, Result<(), Error>) {
    let img = Image::new(8, 8);
    let mut step = save_start(&img, "o.jpg", &zeros);
    let mut written: Vec<u8> = Vec::new();
    let mut calls = Vec::new();
    loop {
        let request = save_request(&step, 1000);
        let answer = match &step {
            SaveStep::Open { path, bytes: _ } => {
                assert_eq!(path, &b"o.jpg\0".to_vec());
                assert_eq!(
                    request,
                    Some(call(257, [-100isize as usize, 1000, 0o1101, 0o644, 0, 0]))
                );
                Ok(6)
            }
            SaveStep::Write { fd, bytes, from } => {
                assert_eq!(
                    request,
                    Some(call(1, [*fd as usize, 1000 + *from, bytes.len() - *from, 0, 0, 0]))
                );
                assert_eq!(*from, written.len());
                let n = most.min(bytes.len() - *from);
                written.extend_from_slice(&bytes[*from..*from + n]);
                Ok(n)
            }
            SaveStep::Close { fd, outcome: _ } => {
                assert_eq!(request, Some(call(3, [*fd as usize, 0, 0, 0, 0, 0])));
                assert_eq!(*fd, 6);
                Err(9)
            }
            SaveStep::Done(outcome) => {
                assert_eq!(request, None);
                return (written, calls, *outcome);
            }
        };
        let answer = if calls.len() == fail { reply } else { answer };
        calls.push(request.unwrap().number);
        step = save(step, answer);
    }
}

#[test]
fn saving_a_file() {
    let (bytes, calls, outcome) = save_with(400, usize::MAX, Ok(0));
    assert_eq!(bytes.len(), 626);
    assert_eq!(bytes[619..], [0, 0, 0, 0, 0x0F, 0xFF, 0xD9]);
    assert_eq!(calls, vec![257, 1, 1, 3]);
    assert_eq!(outcome, Ok(()));
}

#[test]
fn saving_a_file_fails() {
    let (_, calls, outcome) = save_with(400, 0, Err(13));
    assert_eq!((calls, outcome), (vec![257], Err(Error::Open(13))));
    let (_, calls, outcome) = save_with(400, 2, Err(28));
    assert_eq!((calls, outcome), (vec![257, 1, 1, 3], Err(Error::Write(28))));
    let (_, calls, outcome) = save_with(400, 1, Ok(0));
    assert_eq!((calls, outcome), (vec![257, 1, 3], Err(Error::Write(5))));
}

#[test]
fn an_image_that_cannot_be_encoded_touches_no_file() {
    match save_start(&Image::new(0, 3), "o.jpg", &zeros) {
        SaveStep::Done(outcome) => assert_eq!(outcome, Err(Error::Encode)),
        _ => panic!("not done"),
    }
}

#[test]
fn loading_what_was_mapped() {
    let (bytes, _, _) = save_with(1000, usize::MAX, Ok(0));
    match load(Ok(bytes.as_slice()), &flat, &same) {
        Some(Ok(img)) => assert_eq!(img.as_rgb(), &[7u8; 192][..]),
        _ => panic!("not loaded"),
    }
    match load(Err(Error::Empty), &flat, &same) {
        Some(Err(e)) => assert_eq!(e, Error::Empty),
        _ => panic!("no error"),
    }
    match load(Ok(&[1, 2, 3]), &flat, &same) {
        Some(Err(e)) => assert_eq!(e, Error::NotJpeg),
        _ => panic!("no error"),
    }
    assert!(load(Ok(&[0xFF, 0xD8, 0xFF, 0xDB]), &flat, &same).is_none());
}

#[test]
fn what_the_numbers_of_mapping_mean() {
    let mut stat = [0u8; 144];
    stat[48..56].copy_from_slice(&70_000u64.to_le_bytes());
    let open = MapStep::Open { path: vec![0] };
    assert_eq!(map_returned(&open, 4, &stat), Ok(4));
    assert_eq!(map_returned(&open, -2, &stat), Err(2));
    assert_eq!(map_returned(&MapStep::Stat { fd: 4 }, 0, &stat), Ok(70_000));
    assert_eq!(map_returned(&MapStep::Stat { fd: 4 }, -9, &stat), Err(9));
    let map = MapStep::MapFile { fd: 4, len: 70_000 };
    assert_eq!(map_returned(&map, 0x5000, &stat), Ok(0x5000));
    assert_eq!(map_returned(&map, -12, &stat), Err(12));
    assert_eq!(map_returned(&map, -5000, &stat), Err(5000));
    let close = MapStep::Close { fd: 4, outcome: Err(Error::Empty) };
    assert_eq!(map_returned(&close, -5000, &stat), Ok(-5000isize as usize));
}

#[test]
fn what_was_saved_is_loaded() {
    let encoded = encode_image(&Image::new(8, 8), &zeros).unwrap();
    let decoded = decode(&encoded, &flat, &same).ok().unwrap();
    for most in [1, 7, 400, 10_000] {
        let (file, _, outcome) = save_with(most, usize::MAX, Ok(0));
        assert_eq!(outcome, Ok(()));
        assert_eq!(file, encoded);
        match load(Ok(file.as_slice()), &flat, &same) {
            Some(Ok(img)) => {
                assert_eq!((img.width(), img.height()), (8, 8));
                assert_eq!(img.as_rgb(), decoded.as_rgb());
            }
            _ => panic!("not loaded"),
        }
    }
}
