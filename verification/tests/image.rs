use raster::color::Color;
use raster::image::{has_jpg_ext, Image, LoadError};
use raster::jpg::error::Error;

#[test]
fn new_is_black() {
    let img = Image::new(2, 2);
    assert_eq!(img.as_rgb(), &[0; 12]);
}

#[test]
fn put_get_pixel() {
    let mut img = Image::new(10, 10);
    img.put_pixel(3, 4, Color::rgb(255, 128, 0));
    assert_eq!(img.get_pixel(3, 4), Some(Color::rgb(255, 128, 0)));
}

#[test]
fn out_of_bounds_is_noop() {
    let mut img = Image::new(2, 2);
    img.put_pixel(5, 5, Color::rgb(255, 255, 255));
    assert_eq!(img.get_pixel(5, 5), None);
    assert_eq!(img.as_rgb(), &[0; 12]);
}

#[test]
fn colors_keep_their_channels() {
    let c = Color::rgb(1, 2, 3);
    assert_eq!((c.r, c.g, c.b), (1, 2, 3));
}

#[test]
fn size_is_kept() {
    let img = Image::new(7, 3);
    assert_eq!(img.width(), 7);
    assert_eq!(img.height(), 3);
    assert_eq!(img.as_rgb().len(), 63);
    assert_eq!(Image::new(0, 9).as_rgb().len(), 0);
}

#[test]
fn channels_are_read_row_by_row() {
    let img = Image::from_rgb(2, 2, vec![1, 2, 3, 4, 5, 6, 7, 8, 9, 10, 11, 12]);
    assert_eq!(img.get_pixel(0, 0), Some(Color::rgb(1, 2, 3)));
    assert_eq!(img.get_pixel(1, 0), Some(Color::rgb(4, 5, 6)));
    assert_eq!(img.get_pixel(0, 1), Some(Color::rgb(7, 8, 9)));
    assert_eq!(img.get_pixel(1, 1), Some(Color::rgb(10, 11, 12)));
    assert_eq!(img.get_pixel(2, 0), None);
    assert_eq!(img.get_pixel(0, 2), None);
}

#[test]
fn putting_a_pixel_changes_no_other() {
    let mut img = Image::from_rgb(3, 2, (0..18).collect());
    img.put_pixel(1, 1, Color::rgb(100, 101, 102));
    let mut expected: Vec<u8> = (0..18).collect();
    expected[12] = 100;
    expected[13] = 101;
    expected[14] = 102;
    assert_eq!(img.as_rgb(), expected.as_slice());
}

#[test]
fn extensions_in_any_case() {
    assert!(has_jpg_ext("a.jpg"));
    assert!(has_jpg_ext("dir/b.JPEG"));
    assert!(has_jpg_ext(".jPg"));
    assert!(has_jpg_ext("\u{e9}t\u{e9}.jpg"));
    assert!(!has_jpg_ext("jpg"));
    assert!(!has_jpg_ext(""));
    assert!(!has_jpg_ext("a.jpg.png"));
    assert!(!has_jpg_ext("a.jp"));
    assert!(!has_jpg_ext("a.jpe"));
    assert!(!has_jpg_ext("a\u{2e}jp\u{1f}"));
}

#[test]
fn loading_goes_by_extension() {
    let ok = Image::load("x.jpg", |_: &str| Ok(Image::new(1, 2)));
    match ok {
        Ok(img) => assert_eq!((img.width(), img.height()), (1, 2)),
        Err(_) => panic!("not loaded"),
    }
    let failed = Image::load("x.jpeg", |path: &str| {
        assert_eq!(path, "x.jpeg");
        Err(Error::Open(2))
    });
    assert_eq!(failed.err(), Some(LoadError::Jpg(Error::Open(2))));
    let unknown = Image::load("x.png", |_: &str| Ok(Image::new(1, 1)));
    assert_eq!(unknown.err(), Some(LoadError::UnknownExtension));
}
