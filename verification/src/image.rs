//! Images held as rows of RGB pixels.
use vstd::prelude::*;

use crate::color::Color;
use crate::jpg::error::Error;

verus! {

/// An image of eight bits per channel, row by row from the top.
pub struct Image {
    width: u32,
    height: u32,
    buf: Vec<u8>,
}

/// What an image shows: its size and its channels, three to a pixel, row by row.
pub struct Picture {
    pub width: int,
    pub height: int,
    pub rgb: Seq<u8>,
}

impl Picture {
    /// A point lies in the picture.
    pub open spec fn has(self, x: int, y: int) -> bool {
        0 <= x < self.width && 0 <= y < self.height
    }

    /// Where the channels of a pixel start.
    pub open spec fn offset(self, x: int, y: int) -> int {
        (y * self.width + x) * 3
    }

    /// The colour at a point of the picture.
    pub open spec fn pixel(self, x: int, y: int) -> Color {
        let i = self.offset(x, y);
        Color { r: self.rgb[i], g: self.rgb[i + 1], b: self.rgb[i + 2] }
    }

    /// There are three channels for each pixel.
    pub open spec fn wf(self) -> bool {
        0 <= self.width && 0 <= self.height && self.rgb.len() == self.width * self.height * 3
    }

    /// The picture with one pixel changed, or as it is for a point outside.
    pub open spec fn with_pixel(self, x: int, y: int, c: Color) -> Picture {
        if self.has(x, y) {
            let i = self.offset(x, y);
            Picture {
                rgb: self.rgb.update(i, c.r).update(i + 1, c.g).update(i + 2, c.b),
                ..self
            }
        } else {
            self
        }
    }
}

/// The channels of a pixel lie inside the image, and those of different pixels apart.
pub proof fn lemma_offset(p: Picture, x: int, y: int)
    requires
        p.wf(),
        p.has(x, y),
    ensures
        0 <= p.offset(x, y),
        p.offset(x, y) + 2 < p.rgb.len(),
        p.offset(x, y) % 3 == 0,
{
    assert(0 <= y * p.width + x < p.width * p.height) by (nonlinear_arith)
        requires
            0 <= x < p.width,
            0 <= y < p.height,
    ;
}

proof fn lemma_offset_injective(p: Picture, x: int, y: int, x2: int, y2: int)
    requires
        p.has(x, y),
        p.has(x2, y2),
        p.offset(x, y) == p.offset(x2, y2),
    ensures
        x == x2 && y == y2,
{
    let w = p.width;
    assert(x == x2 && y == y2) by (nonlinear_arith)
        requires
            y * w + x == y2 * w + x2,
            0 <= x < w,
            0 <= x2 < w,
    ;
}

/// A pixel that was put is what is read at its place, and no other pixel changes.
pub proof fn law_put_get(p: Picture, x: int, y: int, c: Color, x2: int, y2: int)
    requires
        p.wf(),
        p.has(x2, y2),
    ensures
        p.with_pixel(x, y, c).wf(),
        p.with_pixel(x, y, c).width == p.width && p.with_pixel(x, y, c).height == p.height,
        p.with_pixel(x, y, c).pixel(x2, y2) == if x == x2 && y == y2 {
            c
        } else {
            p.pixel(x2, y2)
        },
{
    lemma_offset(p, x2, y2);
    if p.has(x, y) {
        lemma_offset(p, x, y);
        if p.offset(x, y) == p.offset(x2, y2) {
            lemma_offset_injective(p, x, y, x2, y2);
        }
    }
}

/// Pixels stand one behind the other, from left to right and row by row from the top.
pub proof fn law_row_by_row(p: Picture, x: int, y: int)
    requires
        p.wf(),
        p.has(x, y),
    ensures
        p.offset(0, 0) == 0,
        x + 1 < p.width ==> p.offset(x + 1, y) == p.offset(x, y) + 3,
        x + 1 == p.width ==> p.offset(0, y + 1) == p.offset(x, y) + 3,
        p.rgb.subrange(p.offset(x, y), p.offset(x, y) + 3) == seq![
            p.pixel(x, y).r,
            p.pixel(x, y).g,
            p.pixel(x, y).b,
        ],
{
    lemma_offset(p, x, y);
    let w = p.width;
    assert((y + 1) * w == y * w + w && 0 * w == 0) by (nonlinear_arith);
    let i = p.offset(x, y);
    assert(p.rgb.subrange(i, i + 3) =~= seq![
        p.pixel(x, y).r,
        p.pixel(x, y).g,
        p.pixel(x, y).b,
    ]);
}

impl Image {
    pub closed spec fn view(&self) -> Picture {
        Picture { width: self.width as int, height: self.height as int, rgb: self.buf@ }
    }

    /// Holds of every image.
    pub open spec fn wf(&self) -> bool {
        self@.wf() && self@.width <= u32::MAX && self@.height <= u32::MAX
    }

    /// A black image.
    pub fn new(width: u32, height: u32) -> (img: Self)
        requires
            width * height * 3 <= isize::MAX,
        ensures
            img.wf(),
            img@ == (Picture {
                width: width as int,
                height: height as int,
                rgb: Seq::new((width * height * 3) as nat, |i: int| 0u8),
            }),
    {
        assert(0 <= width * height <= width * height * 3) by (nonlinear_arith)
            requires
                width >= 0,
                height >= 0,
        ;
        let len: usize = (width as usize) * (height as usize) * 3;
        let img = Image { width, height, buf: vec![0; len] };
        assert(img@.rgb =~= Seq::new((width * height * 3) as nat, |i: int| 0u8));
        img
    }

    /// An image of the channels in `buf`, three to a pixel, row by row.
    pub fn from_rgb(width: u32, height: u32, buf: Vec<u8>) -> (img: Self)
        requires
            buf@.len() == width * height * 3,
        ensures
            img.wf(),
            img@ == (Picture { width: width as int, height: height as int, rgb: buf@ }),
    {
        Image { width, height, buf }
    }

    pub fn width(&self) -> (r: u32)
        ensures
            r == self@.width,
    {
        self.width
    }

    pub fn height(&self) -> (r: u32)
        ensures
            r == self@.height,
    {
        self.height
    }

    /// The channels, three to a pixel, row by row.
    pub fn as_rgb(&self) -> (r: &[u8])
        ensures
            r@ == self@.rgb,
    {
        self.buf.as_slice()
    }

    /// Sets a pixel. A point outside the image is left alone.
    pub fn put_pixel(&mut self, x: u32, y: u32, c: Color)
        requires
            old(self).wf(),
            old(self)@.has(x as int, y as int) ==> old(self)@.offset(x as int, y as int)
                <= u32::MAX,
        ensures
            final(self).wf(),
            final(self)@ == old(self)@.with_pixel(x as int, y as int, c),
    {
        if x >= self.width || y >= self.height {
            return;
        }
        proof {
            lemma_offset(self@, x as int, y as int);
        }
        assert(0 <= y * self.width) by (nonlinear_arith)
            requires
                y >= 0,
                self.width >= 0,
        ;
        let i: usize = ((y * self.width + x) * 3) as usize;
        assert(i + 2 < self.buf.len());
        self.buf[i] = c.r;
        self.buf[i + 1] = c.g;
        self.buf[i + 2] = c.b;
    }

    /// The colour of a pixel, or `None` for a point outside the image.
    pub fn get_pixel(&self, x: u32, y: u32) -> (r: Option<Color>)
        requires
            self.wf(),
            self@.has(x as int, y as int) ==> self@.offset(x as int, y as int) <= u32::MAX,
        ensures
            r == if self@.has(x as int, y as int) {
                Some(self@.pixel(x as int, y as int))
            } else {
                None
            },
    {
        if x >= self.width || y >= self.height {
            return None;
        }
        proof {
            lemma_offset(self@, x as int, y as int);
        }
        assert(0 <= y * self.width) by (nonlinear_arith)
            requires
                y >= 0,
                self.width >= 0,
        ;
        let i: usize = ((y * self.width + x) * 3) as usize;
        assert(i + 2 < self.buf.len());
        Some(Color::rgb(self.buf[i], self.buf[i + 1], self.buf[i + 2]))
    }
}

/// An ASCII letter in lower case; any other byte as it is.
pub open spec fn lower(b: u8) -> u8 {
    if 0x41 <= b <= 0x5A {
        (b + 0x20) as u8
    } else {
        b
    }
}

/// `name` ends with `ext`, upper and lower case being the same.
pub open spec fn ends_with(name: Seq<u8>, ext: Seq<u8>) -> bool {
    name.len() >= ext.len() && forall|i: int|
        0 <= i < ext.len() ==> lower(#[trigger] name[name.len() - ext.len() + i]) == ext[i]
}

/// The bytes of `.jpg`.
pub open spec fn dot_jpg() -> Seq<u8> {
    seq![0x2E, 0x6A, 0x70, 0x67]
}

/// The bytes of `.jpeg`.
pub open spec fn dot_jpeg() -> Seq<u8> {
    seq![0x2E, 0x6A, 0x70, 0x65, 0x67]
}

/// A path that names a JPEG file.
pub open spec fn jpg_path(path: Seq<char>) -> bool {
    ends_with(vstd::utf8::encode_utf8(path), dot_jpg()) || ends_with(
        vstd::utf8::encode_utf8(path),
        dot_jpeg(),
    )
}

/// Whether a name ends with an extension does not depend on the case of its letters.
pub proof fn law_extension_ignores_case(name: Seq<u8>, ext: Seq<u8>)
    ensures
        ends_with(name.map_values(|b: u8| lower(b)), ext) == ends_with(name, ext),
{
    let low = name.map_values(|b: u8| lower(b));
    if ends_with(low, ext) {
        assert forall|i: int| 0 <= i < ext.len() implies lower(
            #[trigger] name[name.len() - ext.len() + i],
        ) == ext[i] by {
            assert(lower(low[low.len() - ext.len() + i]) == ext[i]);
        }
    }
}

/// A name has an extension just where, all letters being small, it is something with the extension
/// behind it.
pub proof fn law_extension_is_suffix(name: Seq<u8>, ext: Seq<u8>)
    ensures
        ends_with(name, ext) <==> exists|stem: Seq<u8>|
            name.map_values(|b: u8| lower(b)) == #[trigger] (stem + ext),
{
    let low = name.map_values(|b: u8| lower(b));
    if ends_with(name, ext) {
        let n = name.len() - ext.len();
        let stem = low.take(n);
        assert forall|i: int| 0 <= i < low.len() implies low[i] == (stem + ext)[i] by {
            if i >= n {
                assert(lower(name[name.len() - ext.len() + (i - n)]) == ext[i - n]);
            }
        }
        assert(low =~= stem + ext);
    }
    if exists|stem: Seq<u8>| low == #[trigger] (stem + ext) {
        let stem = choose|stem: Seq<u8>| low == #[trigger] (stem + ext);
        assert(low.len() == stem.len() + ext.len());
        assert(name.len() == low.len());
        assert forall|i: int| 0 <= i < ext.len() implies lower(
            #[trigger] name[name.len() - ext.len() + i],
        ) == ext[i] by {
            let k = stem.len() + i;
            assert(low[k] == (stem + ext)[k]);
            assert(low[k] == lower(name[k]));
        }
    }
}

fn check_ext(name: &[u8], ext: &[u8]) -> (r: bool)
    ensures
        r == ends_with(name@, ext@),
{
    if name.len() < ext.len() {
        return false;
    }
    let start: usize = name.len() - ext.len();
    let mut i: usize = 0;
    while i < ext.len()
        invariant
            i <= ext.len(),
            start == name.len() - ext.len(),
            ext.len() <= name.len(),
            forall|j: int|
                0 <= j < i ==> lower(#[trigger] name@[name@.len() - ext@.len() + j]) == ext@[j],
        decreases ext.len() - i,
    {
        let b: u8 = name[start + i];
        let l: u8 = if 0x41 <= b && b <= 0x5A {
            b + 0x20
        } else {
            b
        };
        if l != ext[i] {
            assert(lower(name@[name@.len() - ext@.len() + i]) != ext@[i as int]);
            return false;
        }
        i += 1;
    }
    true
}

/// Whether a path ends in `.jpg` or `.jpeg`, in any case.
pub fn has_jpg_ext(path: &str) -> (r: bool)
    ensures
        r == jpg_path(path@),
{
    let b = path.as_bytes();
    let jpg: [u8; 4] = [0x2E, 0x6A, 0x70, 0x67];
    let jpeg: [u8; 5] = [0x2E, 0x6A, 0x70, 0x65, 0x67];
    assert(jpg@ =~= dot_jpg());
    assert(jpeg@ =~= dot_jpeg());
    check_ext(b, jpg.as_slice()) || check_ext(b, jpeg.as_slice())
}

/// Why an image could not be loaded.
#[derive(Debug, Clone, Copy, PartialEq, Eq, Structural)]
pub enum LoadError {
    UnknownExtension,
    Jpg(Error),
}

impl Image {
    /// Loads an image by file extension: a path that names a JPEG file goes to `load_jpg`.
    pub fn load<L: FnOnce(&str) -> Result<Image, Error>>(path: &str, load_jpg: L) -> (r: Result<
        Self,
        LoadError,
    >)
        requires
            jpg_path(path@) ==> call_requires(load_jpg, (path,)),
        ensures
            !jpg_path(path@) ==> r == Err::<Image, LoadError>(LoadError::UnknownExtension),
            jpg_path(path@) ==> match r {
                Ok(img) => call_ensures(load_jpg, (path,), Ok(img)),
                Err(LoadError::Jpg(e)) => call_ensures(load_jpg, (path,), Err(e)),
                Err(LoadError::UnknownExtension) => false,
            },
    {
        if has_jpg_ext(path) {
            match load_jpg(path) {
                Ok(img) => Ok(img),
                Err(e) => Err(LoadError::Jpg(e)),
            }
        } else {
            Err(LoadError::UnknownExtension)
        }
    }
}

} // verus!
