//! The pixel buffer: an image of the `x11rb` crate, and what this library
//! takes for granted of it.

use vstd::prelude::*;
use vstd::arithmetic::power2::pow2;
use x11rb::image::Image;
use x11rb::protocol::xproto::{Format, Setup};

verus! {

/// `x11rb::image::Image`, taken as it is: nothing is known of what is in
/// an image but what the functions below say.
#[verifier::external_type_specification]
#[verifier::external_body]
pub struct ExImage<'a>(x11rb::image::Image<'a>);

/// The value of each pixel of an image, by column and row: what
/// `Image::get_pixel` returns for it.
pub uninterp spec fn image_pixels(image: Image<'static>) -> Map<(int, int), u32>;

/// The width of an image in pixels: what `Image::width` returns.
pub uninterp spec fn image_width(image: Image<'static>) -> u16;

/// The height of an image in pixels: what `Image::height` returns.
pub uninterp spec fn image_height(image: Image<'static>) -> u16;

/// The number of bits that an image stores of each pixel: what
/// `Image::bits_per_pixel` returns, as a number.
pub uninterp spec fn image_bits(image: Image<'static>) -> u8;

/// How the server lays out the pixels of images of one depth.
#[derive(Clone, Copy, Debug)]
pub struct PixmapFormat {
    pub depth: u8,
    pub bits_per_pixel: u8,
    pub scanline_pad: u8,
}

/// The value that a store of `bits` bits per pixel keeps of `pixel`: its
/// low `bits` bits.
pub open spec fn stored(pixel: u32, bits: u8) -> u32 {
    if bits >= 32 {
        pixel
    } else {
        (pixel as nat % pow2(bits as nat)) as u32
    }
}

/// The first format for `depth` among the first `n` formats.
pub open spec fn native_format(formats: Seq<PixmapFormat>, depth: u8, n: nat) -> Option<PixmapFormat>
    decreases n,
{
    if n == 0 || n > formats.len() {
        None
    } else {
        match native_format(formats, depth, (n - 1) as nat) {
            Some(f) => Some(f),
            None => if formats[n - 1].depth == depth {
                Some(formats[n - 1])
            } else {
                None
            },
        }
    }
}

/// Whether an image can be laid out in `format` with byte order `order`:
/// scanlines are padded to 8, 16 or 32 bits, a pixel takes 1, 4, 8, 16, 24
/// or 32 bits, and the order is least (0) or most (1) significant byte
/// first.
pub open spec fn supported(format: PixmapFormat, order: u8) -> bool {
    &&& format.scanline_pad == 8 || format.scanline_pad == 16 || format.scanline_pad == 32
    &&& format.bits_per_pixel == 1 || format.bits_per_pixel == 4 || format.bits_per_pixel == 8
        || format.bits_per_pixel == 16 || format.bits_per_pixel == 24 || format.bits_per_pixel
        == 32
    &&& order <= 1
}

/// Whether `(x, y)` is a pixel of a `width` by `height` image.
pub open spec fn on_grid(width: u16, height: u16, x: int, y: int) -> bool {
    0 <= x < width && 0 <= y < height
}

/// Calls `Image::allocate_native` with a `Setup` that holds `formats` and
/// `order`. It takes the first format for `depth`, fails where there is
/// none or where the format or the order is not supported, and else
/// allocates an image of `width` by `height` pixels, all zero.
#[verifier::external_body]
pub(crate) fn allocate_native(
    width: u16,
    height: u16,
    depth: u8,
    formats: &Vec<PixmapFormat>,
    order: u8,
) -> (r: Option<Image<'static>>)
    requires
        (width as int * 4 + 4) * height as int <= usize::MAX,
    ensures
        r is Some <==> (native_format(formats@, depth, formats@.len()) matches Some(f) && supported(
            f,
            order,
        )),
        r matches Some(image) ==> {
            &&& image_width(image) == width
            &&& image_height(image) == height
            &&& native_format(formats@, depth, formats@.len()) matches Some(f) && image_bits(image)
                == f.bits_per_pixel
            &&& forall|x: int, y: int|
                on_grid(width, height, x, y) ==> #[trigger] image_pixels(image)[(x, y)] == 0
        },
{
    let setup = Setup {
        pixmap_formats: formats.iter().map(
            |f| Format { depth: f.depth, bits_per_pixel: f.bits_per_pixel, scanline_pad: f.scanline_pad },
        ).collect(),
        image_byte_order: order.into(),
        ..Default::default()
    };
    Image::allocate_native(width, height, depth, &setup).ok()
}

/// Calls `Image::put_pixel`, which sets the pixel at `(x, y)` to `pixel`,
/// cut to the bits that the image stores of a pixel, and leaves every
/// other pixel as it is. It panics outside the image.
#[verifier::external_body]
pub(crate) fn put_pixel(image: &mut Image<'static>, x: u16, y: u16, pixel: u32)
    requires
        x < image_width(*old(image)),
        y < image_height(*old(image)),
    ensures
        image_width(*final(image)) == image_width(*old(image)),
        image_height(*final(image)) == image_height(*old(image)),
        image_bits(*final(image)) == image_bits(*old(image)),
        image_pixels(*final(image)) == image_pixels(*old(image)).insert(
            (x as int, y as int),
            stored(pixel, image_bits(*old(image))),
        ),
{
    image.put_pixel(x, y, pixel)
}

/// Calls `Image::get_pixel`, which returns the pixel at `(x, y)`. It
/// panics outside the image.
#[verifier::external_body]
pub(crate) fn get_pixel(image: &Image<'static>, x: u16, y: u16) -> (r: u32)
    requires
        x < image_width(*image),
        y < image_height(*image),
    ensures
        r == image_pixels(*image)[(x as int, y as int)],
{
    image.get_pixel(x, y)
}

/// Calls `Image::width`.
#[verifier::external_body]
pub(crate) fn width_of(image: &Image<'static>) -> (r: u16)
    ensures
        r == image_width(*image),
{
    image.width()
}

/// Calls `Image::height`.
#[verifier::external_body]
pub(crate) fn height_of(image: &Image<'static>) -> (r: u16)
    ensures
        r == image_height(*image),
{
    image.height()
}

} // verus!
