//! Rendering a sequence of colours as an image of horizontal bands.

use vstd::prelude::*;
use image::ImageBuffer;
use image::Rgb;
use image::RgbImage;
use crate::color::{channels_of, Channels, RGB};

verus! {

/// An RGB image with 8 bits per channel, held as an image buffer of the
/// `image` crate. Opaque here: what the contracts say of one they say through
/// [`image_width`], [`image_height`] and [`image_pixels`].
#[verifier::external_body]
pub struct Raster {
    buffer: RgbImage,
}

/// The number of pixels in a row of the image.
pub uninterp spec fn image_width(img: Raster) -> nat;

/// The number of rows of the image.
pub uninterp spec fn image_height(img: Raster) -> nat;

/// The pixels of the image: the channels at each `(x, y)` with `x` below the
/// width and `y` below the height.
pub uninterp spec fn image_pixels(img: Raster) -> Map<(int, int), Channels>;

/// Channel `k` of a pixel: red, green and blue are channels 0, 1 and 2.
pub open spec fn channel(c: Channels, k: int) -> u8 {
    if k == 0 {
        c.0
    } else if k == 1 {
        c.1
    } else {
        c.2
    }
}

/// The pixels of an image as bytes: the rows one after the other, from the
/// top, each row from the left, three bytes per pixel.
pub open spec fn row_major(width: nat, height: nat, pixels: Map<(int, int), Channels>) -> Seq<u8> {
    Seq::new(
        3 * width * height,
        |i: int| channel(pixels[((i / 3) % (width as int), (i / 3) / (width as int))], i % 3),
    )
}

/// The positions of an image of the given size.
pub open spec fn positions(width: nat, height: nat) -> Set<(int, int)> {
    Set::new(|p: (int, int)| 0 <= p.0 < width && 0 <= p.1 < height)
}

/// The image is `width` pixels wide, has one row for each colour, and every
/// pixel of row `y` has the colour `bands[y]`.
pub open spec fn is_banded(img: Raster, width: nat, bands: Seq<Channels>) -> bool {
    &&& image_width(img) == width
    &&& image_height(img) == bands.len()
    &&& image_pixels(img) == Map::new(
        |p: (int, int)| positions(width, bands.len()).contains(p),
        |p: (int, int)| bands[p.1],
    )
}

/// The bytes of an image of bands: row `y` repeats the three channels of
/// `bands[y]` once for each of its `width` pixels.
pub open spec fn band_bytes(width: nat, bands: Seq<Channels>) -> Seq<u8> {
    Seq::new(3 * width * bands.len(), |i: int| channel(bands[i / (3 * width as int)], i % 3))
}

/// Why a sequence of colours cannot be rendered.
#[derive(Debug, Clone, Copy, PartialEq, Eq, Structural)]
pub enum RenderError {
    /// There are more colours than an image can have rows.
    TooManyRows,
    /// The pixel data would be more bytes than a vector can hold.
    TooLarge,
}

/// `ImageBuffer::new` at pixel type `Rgb<u8>`.
///
/// Trusted: the new image has the size asked for and every channel of every
/// pixel is zero. The call panics when three bytes per pixel are more bytes
/// than a vector can hold, which is `isize::MAX`; `requires` leaves those
/// sizes out.
#[verifier::external_body]
fn new_image(width: u32, height: u32) -> (img: Raster)
    requires
        3 * width * height <= isize::MAX,
    ensures
        image_width(img) == width,
        image_height(img) == height,
        image_pixels(img) == Map::new(
            |p: (int, int)| positions(width as nat, height as nat).contains(p),
            |p: (int, int)| (0u8, 0u8, 0u8),
        ),
{
    Raster { buffer: ImageBuffer::new(width, height) }
}

/// `ImageBuffer::put_pixel` at pixel type `Rgb<u8>`.
///
/// Trusted: the pixel at `(x, y)` takes the given channels and nothing else
/// changes. The call panics outside the image; `requires` leaves those
/// positions out.
#[verifier::external_body]
fn put_pixel(img: &mut Raster, x: u32, y: u32, color: (u8, u8, u8))
    requires
        x < image_width(*old(img)),
        y < image_height(*old(img)),
    ensures
        image_width(*final(img)) == image_width(*old(img)),
        image_height(*final(img)) == image_height(*old(img)),
        image_pixels(*final(img)) == image_pixels(*old(img)).insert((x as int, y as int), color),
{
    img.buffer.put_pixel(x, y, Rgb([color.0, color.1, color.2]))
}

/// `ImageBuffer::into_raw` at pixel type `Rgb<u8>`.
///
/// Trusted: the buffer holds the rows one after the other, from the top, each
/// row from the left, three bytes per pixel in the order red, green, blue.
#[verifier::external_body]
fn raw_bytes(img: Raster) -> (bytes: Vec<u8>)
    ensures
        bytes@ == row_major(image_width(img), image_height(img), image_pixels(img)),
{
    img.buffer.into_raw()
}

impl Raster {
    /// The bytes of the image: the rows one after the other, from the top,
    /// each row from the left, three bytes per pixel in the order red, green,
    /// blue.
    pub fn into_raw(self) -> (bytes: Vec<u8>)
        ensures
            bytes@ == row_major(image_width(self), image_height(self), image_pixels(self)),
    {
        raw_bytes(self)
    }
}

/// The number of rows of an image with one row per colour.
pub fn row_count(colors: usize) -> (rows: Result<u32, RenderError>)
    ensures
        rows == if colors <= u32::MAX {
            Ok::<u32, RenderError>(colors as u32)
        } else {
            Err::<u32, RenderError>(RenderError::TooManyRows)
        },
{
    if colors > u32::MAX as usize {
        Err(RenderError::TooManyRows)
    } else {
        Ok(colors as u32)
    }
}

/// The number of bytes of an image with three bytes per pixel.
pub fn buffer_len(width: u32, height: u32) -> (len: Result<usize, RenderError>)
    ensures
        len == if 3 * width * height <= isize::MAX {
            Ok::<usize, RenderError>((3 * width * height) as usize)
        } else {
            Err::<usize, RenderError>(RenderError::TooLarge)
        },
{
    assert(3 * width * height <= 3 * 0xffff_ffff * 0xffff_ffff) by (nonlinear_arith)
        requires
            width <= 0xffff_ffff,
            height <= 0xffff_ffff,
    ;
    let len: u128 = 3 * (width as u128) * (height as u128);
    if len > isize::MAX as u128 {
        Err(RenderError::TooLarge)
    } else {
        Ok(len as usize)
    }
}

/// The image of the given width with one row per colour, row `y` filled with
/// `colors[y]`.
pub fn render_bands(colors: &Vec<RGB>, width: u32) -> (out: Result<Raster, RenderError>)
    ensures
        colors@.len() > u32::MAX ==> out == Err::<Raster, RenderError>(RenderError::TooManyRows),
        colors@.len() <= u32::MAX && 3 * width * colors@.len() > isize::MAX ==> out == Err::<
            Raster,
            RenderError,
        >(RenderError::TooLarge),
        colors@.len() <= u32::MAX && 3 * width * colors@.len() <= isize::MAX ==> out is Ok
            && is_banded(out->Ok_0, width as nat, channels_of(colors@)),
{
    let height: u32 = match row_count(colors.len()) {
        Ok(rows) => rows,
        Err(e) => {
            return Err(e);
        },
    };
    match buffer_len(width, height) {
        Ok(_) => {},
        Err(e) => {
            return Err(e);
        },
    }
    let mut img = new_image(width, height);
    let mut y: u32 = 0;
    while y < height
        invariant
            y <= height,
            height == colors@.len(),
            image_width(img) == width,
            image_height(img) == height,
            image_pixels(img).dom() == positions(width as nat, height as nat),
            forall|p: (int, int)|
                0 <= p.0 < width && 0 <= p.1 < y ==> #[trigger] image_pixels(img)[p] == colors@[p.1]@,
        decreases height - y,
    {
        let color = colors[y as usize].to_tuple();
        let mut x: u32 = 0;
        while x < width
            invariant
                x <= width,
                y < height,
                height == colors@.len(),
                color == colors@[y as int]@,
                image_width(img) == width,
                image_height(img) == height,
                image_pixels(img).dom() == positions(width as nat, height as nat),
                forall|p: (int, int)|
                    0 <= p.0 < width && 0 <= p.1 < y ==> #[trigger] image_pixels(img)[p]
                        == colors@[p.1]@,
                forall|p: (int, int)|
                    0 <= p.0 < x && p.1 == y ==> #[trigger] image_pixels(img)[p] == color,
            decreases width - x,
        {
            put_pixel(&mut img, x, y, color);
            assert(image_pixels(img).dom() =~= positions(width as nat, height as nat));
            x += 1;
        }
        y += 1;
    }
    assert(image_pixels(img) =~= Map::new(
        |p: (int, int)| positions(width as nat, colors@.len()).contains(p),
        |p: (int, int)| channels_of(colors@)[p.1],
    ));
    Ok(img)
}

/// Byte `i` of an image `width` pixels wide belongs to the pixel in column
/// `(i / 3) % width` of row `i / (3 * width)`.
proof fn lemma_byte_position(i: int, width: int, height: int)
    requires
        0 <= width,
        0 <= height,
        0 <= i < 3 * width * height,
    ensures
        width > 0,
        0 <= (i / 3) % width < width,
        0 <= (i / 3) / width < height,
        (i / 3) / width == i / (3 * width),
{
    assert(width > 0) by (nonlinear_arith)
        requires
            0 <= width,
            0 < 3 * width * height,
    ;
    let k = i / 3;
    assert(3 * width * height == 3 * (width * height)) by (nonlinear_arith);
    assert(0 <= k < width * height);
    assert(0 <= k % width < width && 0 <= k / width < height) by (nonlinear_arith)
        requires
            0 <= k < width * height,
            width > 0,
    ;
    vstd::arithmetic::div_mod::lemma_div_denominator(i, 3, width);
}

/// The bytes of an image of bands are the channels of each band, repeated
/// along its row.
pub proof fn lemma_banded_bytes(img: Raster, width: nat, bands: Seq<Channels>)
    requires
        is_banded(img, width, bands),
    ensures
        row_major(image_width(img), image_height(img), image_pixels(img)) == band_bytes(
            width,
            bands,
        ),
{
    let bytes = row_major(image_width(img), image_height(img), image_pixels(img));
    assert(bytes.len() == band_bytes(width, bands).len());
    assert forall|i: int| 0 <= i < bytes.len() implies bytes[i] == band_bytes(width, bands)[i] by {
        lemma_byte_position(i, width as int, bands.len() as int);
        let p = ((i / 3) % (width as int), (i / 3) / (width as int));
        assert(positions(width, bands.len()).contains(p));
    }
    assert(bytes =~= band_bytes(width, bands));
}

} // verus!
