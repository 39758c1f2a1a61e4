//! The glyph rasterizer: glyph coverage, laid out by a font, is blended
//! into the pixel buffer in one of two colours and cut off at the right.

use vstd::prelude::*;
use vstd::arithmetic::power2::{pow2, lemma_pow2_pos};
use vstd::arithmetic::div_mod::{lemma_div_is_ordered, lemma_basic_div};
use x11rb::image::Image;
use crate::arguments::{parse_color, parse_u16, parsed_color, parsed_u16};
use crate::compose::{compose, composed, Shade};
use crate::fixed::{scaled, to_unit_fraction, unit_fraction, UNIT};
use crate::image::{
    allocate_native, get_pixel, height_of, image_bits, image_height, image_pixels,
    image_width, native_format, on_grid, put_pixel, stored, supported, width_of, PixmapFormat,
};
use crate::visual::{check_visual, find_visual, judged, Depth, PixelLayout, PixelLayoutView, VisualError, encoded};
use crate::weight::{decoded_weight, Weight};

verus! {

/// A colour: the intensities of red, green and blue, 16 bits each.
pub type Color = (u16, u16, u16);

/// The 16-bit colour for a colour of 8 bits per channel: each channel moves
/// to the high byte, and red gets a low byte of all ones.
pub open spec fn wide_color(color: (u8, u8, u8)) -> Color {
    ((color.0 * 256 + 255) as u16, (color.1 * 256) as u16, (color.2 * 256) as u16)
}

/// Widens a colour of 8 bits per channel to 16 bits per channel.
pub fn color_from_u8(color: (u8, u8, u8)) -> (r: Color)
    ensures
        r == wide_color(color),
{
    (color.0 as u16 * 256 + 255, color.1 as u16 * 256, color.2 as u16 * 256)
}

/// The number that an argument stands for, if it was given and is one.
pub open spec fn number_asked(text: Option<String>) -> Option<u16> {
    match text {
        Some(t) => parsed_u16(t@),
        None => None,
    }
}

/// The colour that an argument stands for, if it was given and is one.
pub open spec fn color_asked(text: Option<String>) -> Option<(u8, u8, u8)> {
    match text {
        Some(t) => parsed_color(t@),
        None => None,
    }
}

/// The weight that an argument stands for, as numerator and exponent: that
/// of the bit pattern where one was given and denotes a weight, else 5.
pub open spec fn weight_asked(bits: Option<u32>) -> (nat, nat) {
    match bits {
        Some(b) => match decoded_weight(b) {
            Some(w) => w,
            None => (5nat, 0nat),
        },
        None => (5nat, 0nat),
    }
}

/// What the picker is started with.
#[derive(Debug)]
pub struct RunOptions {
    pub fontname: Option<String>,
    pub fontsize: u16,
    pub color: Color,
    pub margin: u16,
    pub precise_wheight: Weight,
}

/// The pixels that a glyph covers, relative to the origin of its text.
#[derive(Clone, Copy, Debug, PartialEq, Eq, Structural)]
pub struct PixelBox {
    pub min_x: i32,
    pub min_y: i32,
    pub max_x: i32,
    pub max_y: i32,
}

/// How much of one pixel a glyph covers: the pixel, relative to the corner
/// of the glyph's box, and the coverage as the bit pattern of a binary32
/// number between 0 and 1.
#[derive(Clone, Copy, Debug, PartialEq, Eq, Structural)]
pub struct Coverage {
    pub x: u32,
    pub y: u32,
    pub value: u32,
}

/// One glyph of a laid out text: its box, if it covers any pixel, the
/// horizontal place of its origin, and its coverage pixel by pixel.
#[derive(Debug)]
pub struct Glyph {
    pub bounds: Option<PixelBox>,
    pub origin_x: u16,
    pub coverage: Vec<Coverage>,
}

/// A glyph as a mathematical value.
pub struct GlyphView {
    pub bounds: Option<PixelBox>,
    pub origin_x: u16,
    pub coverage: Seq<Coverage>,
}

impl DeepView for Glyph {
    type V = GlyphView;

    open spec fn deep_view(&self) -> GlyphView {
        GlyphView { bounds: self.bounds, origin_x: self.origin_x, coverage: self.coverage@ }
    }
}

/// What a drawing is done with: the size of the buffer and the bits it
/// stores of a pixel, the margin, the layout of pixel values, and the
/// colour with its shade.
pub struct Brush {
    pub width: u16,
    pub height: u16,
    pub bits: u8,
    pub margin: u16,
    pub layout: PixelLayoutView,
    pub color: Color,
    pub shade: Shade,
}

/// A drawing in progress: the pixels, the horizontal offset behind what was
/// drawn, and whether the drawing ran into the right boundary.
pub struct Canvas {
    pub pixels: Map<(int, int), u32>,
    pub next_x: u16,
    pub clipped: bool,
}

/// What a call of `render_glyphs` reports: the offset behind what it drew,
/// and whether it ran into the right boundary.
#[derive(Clone, Copy, Debug, PartialEq, Eq, Structural)]
pub struct Drawn {
    pub next_x: u16,
    pub clipped: bool,
}

/// The right boundary: no pixel at or right of this column is drawn.
pub open spec fn limit(width: u16, margin: u16) -> int {
    width - 2 * margin
}

/// The column of a coverage sample in the buffer.
pub open spec fn sample_x(margin: u16, offset: u16, bounds: PixelBox, sample: Coverage) -> int {
    margin + offset + bounds.min_x + sample.x
}

/// The row of a coverage sample in the buffer.
pub open spec fn sample_y(margin: u16, bounds: PixelBox, sample: Coverage) -> int {
    margin + bounds.min_y + sample.y
}

/// Whether a pixel is drawn at all: it lies in the buffer, left of the
/// right boundary.
pub open spec fn visible(brush: Brush, x: int, y: int) -> bool {
    0 <= x < limit(brush.width, brush.margin) && 0 <= y < brush.height
}

/// One channel of a colour under a coverage: the channel, halved in the
/// secondary shade, times the coverage, rounded down.
pub open spec fn intensity(channel: u16, shade: Shade, value: u32) -> u16 {
    scaled(channel, shade == Shade::Secondary, unit_fraction(value)) as u16
}

/// The pixel value that a coverage leaves: the colour times the coverage,
/// channel by channel, encoded in the layout and cut to the bits of the
/// buffer.
pub open spec fn pixel_value(brush: Brush, value: u32) -> u32 {
    stored(
        encoded(
            brush.layout,
            (
                intensity(brush.color.0, brush.shade, value),
                intensity(brush.color.1, brush.shade, value),
                intensity(brush.color.2, brush.shade, value),
            ),
        ),
        brush.bits,
    )
}

/// The pixels after the first `n` samples of a glyph are drawn: each
/// visible sample sets its pixel, in order.
pub open spec fn painted(
    pixels: Map<(int, int), u32>,
    brush: Brush,
    offset: u16,
    bounds: PixelBox,
    samples: Seq<Coverage>,
    n: nat,
) -> Map<(int, int), u32>
    decreases n,
{
    if n == 0 || n > samples.len() {
        pixels
    } else {
        let before = painted(pixels, brush, offset, bounds, samples, (n - 1) as nat);
        let x = sample_x(brush.margin, offset, bounds, samples[n - 1]);
        let y = sample_y(brush.margin, bounds, samples[n - 1]);
        if visible(brush, x, y) {
            before.insert((x, y), pixel_value(brush, samples[n - 1].value))
        } else {
            before
        }
    }
}

/// Whether one of the first `n` samples of a glyph lies at or right of the
/// right boundary.
pub open spec fn overruns(
    brush: Brush,
    offset: u16,
    bounds: PixelBox,
    samples: Seq<Coverage>,
    n: nat,
) -> bool
    decreases n,
{
    if n == 0 || n > samples.len() {
        false
    } else {
        overruns(brush, offset, bounds, samples, (n - 1) as nat) || sample_x(
            brush.margin,
            offset,
            bounds,
            samples[n - 1],
        ) >= limit(brush.width, brush.margin)
    }
}

/// The offset `dx` pixels right of `offset`, kept within 16 bits.
pub open spec fn moved(offset: u16, dx: int) -> u16 {
    if offset + dx < 0 {
        0
    } else if offset + dx > u16::MAX {
        u16::MAX
    } else {
        (offset + dx) as u16
    }
}

/// The drawing after one more glyph. A glyph without a box draws nothing
/// and moves the offset to its origin. A glyph with a box is painted; where
/// it stays left of the boundary the offset moves behind its box, and where
/// it does not the drawing is clipped and the offset stays. Nothing follows
/// a clipped glyph.
pub open spec fn glyph_drawn(canvas: Canvas, brush: Brush, offset: u16, glyph: GlyphView) -> Canvas {
    if canvas.clipped {
        canvas
    } else {
        match glyph.bounds {
            None => Canvas {
                pixels: canvas.pixels,
                next_x: moved(offset, glyph.origin_x as int),
                clipped: false,
            },
            Some(bounds) => {
                let pixels = painted(
                    canvas.pixels,
                    brush,
                    offset,
                    bounds,
                    glyph.coverage,
                    glyph.coverage.len(),
                );
                if overruns(brush, offset, bounds, glyph.coverage, glyph.coverage.len()) {
                    Canvas { pixels, next_x: canvas.next_x, clipped: true }
                } else {
                    Canvas { pixels, next_x: moved(offset, bounds.max_x as int), clipped: false }
                }
            },
        }
    }
}

/// The drawing after the first `n` glyphs of a text that starts at
/// `offset`.
pub open spec fn drawn(canvas: Canvas, brush: Brush, offset: u16, glyphs: Seq<GlyphView>, n: nat) -> Canvas
    decreases n,
{
    if n == 0 || n > glyphs.len() {
        canvas
    } else {
        glyph_drawn(drawn(canvas, brush, offset, glyphs, (n - 1) as nat), brush, offset, glyphs[n - 1])
    }
}

/// The drawing of one text from the offset `offset` on the pixels `pixels`.
pub open spec fn text_drawn(
    pixels: Map<(int, int), u32>,
    brush: Brush,
    offset: u16,
    glyphs: Seq<GlyphView>,
) -> Canvas {
    drawn(Canvas { pixels, next_x: offset, clipped: false }, brush, offset, glyphs, glyphs.len())
}

/// The brush in another shade.
pub open spec fn shaded(brush: Brush, shade: Shade) -> Brush {
    Brush {
        width: brush.width,
        height: brush.height,
        bits: brush.bits,
        margin: brush.margin,
        layout: brush.layout,
        color: brush.color,
        shade,
    }
}

/// The line after one more segment: its glyphs are drawn from the offset
/// that the line has reached, in the shade of the segment. A line that was
/// clipped, or whose offset has passed the width, takes no more segments.
pub open spec fn segment_drawn(
    canvas: Canvas,
    brush: Brush,
    shade: Shade,
    glyphs: Seq<GlyphView>,
) -> Canvas {
    if canvas.clipped {
        canvas
    } else {
        let after = text_drawn(canvas.pixels, shaded(brush, shade), canvas.next_x, glyphs);
        Canvas {
            pixels: after.pixels,
            next_x: after.next_x,
            clipped: after.clipped || after.next_x > brush.width,
        }
    }
}

/// The line after the first `n` segments, each with its laid out glyphs.
pub open spec fn line_drawn(
    canvas: Canvas,
    brush: Brush,
    line: Seq<(Seq<char>, Shade)>,
    layouts: Seq<Seq<GlyphView>>,
    n: nat,
) -> Canvas
    decreases n,
{
    if n == 0 || n > line.len() || n > layouts.len() {
        canvas
    } else {
        segment_drawn(
            line_drawn(canvas, brush, line, layouts, (n - 1) as nat),
            brush,
            line[n - 1].1,
            layouts[n - 1],
        )
    }
}

/// The number of segments that have glyphs to draw.
pub open spec fn drawable(line: Seq<(Seq<char>, Shade)>, layouts: Seq<Seq<GlyphView>>) -> nat {
    if line.len() <= layouts.len() {
        line.len()
    } else {
        layouts.len()
    }
}

/// The pixels with every pixel of the grid set to zero.
pub open spec fn cleared(pixels: Map<(int, int), u32>, width: u16, height: u16) -> Map<(int, int), u32> {
    Map::new(
        |p: (int, int)| pixels.dom().contains(p) || on_grid(width, height, p.0, p.1),
        |p: (int, int)|
            if on_grid(width, height, p.0, p.1) {
                0u32
            } else {
                pixels[p]
            },
    )
}

/// The pixels with zero in the rows above `row` and in the columns left of
/// `column` in row `row`.
spec fn zeroed(
    pixels: Map<(int, int), u32>,
    width: u16,
    height: u16,
    row: int,
    column: int,
) -> Map<(int, int), u32> {
    Map::new(
        |p: (int, int)|
            pixels.dom().contains(p) || (on_grid(width, height, p.0, p.1) && (p.1 < row || (p.1
                == row && p.0 < column))),
        |p: (int, int)|
            if on_grid(width, height, p.0, p.1) && (p.1 < row || (p.1 == row && p.0 < column)) {
                0u32
            } else {
                pixels[p]
            },
    )
}

/// Why a renderer cannot be made.
#[derive(Clone, Copy, Debug, PartialEq, Eq, Structural)]
pub enum RenderError {
    /// The buffer would have more bytes than the machine can address.
    TooLarge,
    /// The server has no supported format for images of the depth.
    Format,
    /// The root visual is not as expected.
    Visual(VisualError),
}

/// The renderer: the pixel buffer with what is needed to draw into it.
pub struct FontRenderer {
    image: Image<'static>,
    margin: u16,
    color: Color,
    pixel_layout: PixelLayout,
}

/// A renderer as a mathematical value.
pub struct FontRendererView {
    pub pixels: Map<(int, int), u32>,
    pub width: u16,
    pub height: u16,
    pub bits: u8,
    pub margin: u16,
    pub color: Color,
    pub layout: PixelLayoutView,
}

impl FontRendererView {
    /// The brush of this renderer in a shade.
    pub open spec fn brush(self, shade: Shade) -> Brush {
        Brush {
            width: self.width,
            height: self.height,
            bits: self.bits,
            margin: self.margin,
            layout: self.layout,
            color: self.color,
            shade,
        }
    }

    /// This renderer with other pixels.
    pub open spec fn with_pixels(self, pixels: Map<(int, int), u32>) -> FontRendererView {
        FontRendererView {
            pixels,
            width: self.width,
            height: self.height,
            bits: self.bits,
            margin: self.margin,
            color: self.color,
            layout: self.layout,
        }
    }
}

impl View for FontRenderer {
    type V = FontRendererView;

    closed spec fn view(&self) -> FontRendererView {
        FontRendererView {
            pixels: image_pixels(self.image),
            width: image_width(self.image),
            height: image_height(self.image),
            bits: image_bits(self.image),
            margin: self.margin,
            color: self.color,
            layout: self.pixel_layout@,
        }
    }
}

/// The window is as high as the font, with the margin above and below.
pub open spec fn window_height_of(fontsize: u16, margin: u16) -> Option<u16> {
    if fontsize + 2 * margin <= u16::MAX {
        Some((fontsize + 2 * margin) as u16)
    } else {
        None
    }
}

/// Whether a buffer of this size can be addressed.
pub open spec fn addressable(width: u16, height: u16) -> bool {
    (width as int * 4 + 4) * height as int <= usize::MAX
}

impl RunOptions {
    /// The options for what was asked for, with the usual value in place of
    /// what was not: a font size of 32, orange, a margin of 7, and a weight
    /// of 5.
    pub fn new(
        fontname: Option<String>,
        fontsize: Option<u16>,
        color: Option<(u8, u8, u8)>,
        margin: Option<u16>,
        precise_wheight: Option<Weight>,
    ) -> (r: RunOptions)
        ensures
            r.fontname == fontname,
            r.fontsize == fontsize.unwrap_or(32),
            r.color == wide_color(color.unwrap_or((255, 127, 0))),
            r.margin == margin.unwrap_or(7),
            precise_wheight matches Some(w) ==> r.precise_wheight == w,
            precise_wheight is None ==> r.precise_wheight.numerator() == 5
                && r.precise_wheight.halvings() == 0,
    {
        let weight = match precise_wheight {
            Some(w) => w,
            None => Weight::usual(),
        };
        RunOptions {
            fontname,
            fontsize: match fontsize {
                Some(size) => size,
                None => 32,
            },
            color: color_from_u8(
                match color {
                    Some(c) => c,
                    None => (255, 127, 0),
                },
            ),
            margin: match margin {
                Some(m) => m,
                None => 7,
            },
            precise_wheight: weight,
        }
    }

    /// The options for the arguments as they were given: a font size, a
    /// colour or a margin that cannot be read, and a weight that is not
    /// positive and finite, count as not given.
    pub fn from_arguments(
        fontname: Option<String>,
        fontsize: Option<String>,
        color: Option<String>,
        margin: Option<String>,
        precise_wheight: Option<u32>,
    ) -> (r: RunOptions)
        ensures
            r.fontname == fontname,
            r.fontsize == number_asked(fontsize).unwrap_or(32),
            r.color == wide_color(color_asked(color).unwrap_or((255, 127, 0))),
            r.margin == number_asked(margin).unwrap_or(7),
            (r.precise_wheight.numerator(), r.precise_wheight.halvings()) == weight_asked(
                precise_wheight,
            ),
    {
        let size = match &fontsize {
            Some(text) => parse_u16(text.as_str()),
            None => None,
        };
        let rgb = match &color {
            Some(text) => parse_color(text.as_str()),
            None => None,
        };
        let edge = match &margin {
            Some(text) => parse_u16(text.as_str()),
            None => None,
        };
        let weight = match precise_wheight {
            Some(bits) => Weight::from_bits(bits),
            None => None,
        };
        RunOptions::new(fontname, size, rgb, edge, weight)
    }

    /// The height of the window for these options, where it fits 16 bits.
    pub fn window_height(&self) -> (r: Option<u16>)
        ensures
            r == window_height_of(self.fontsize, self.margin),
    {
        match self.margin.checked_mul(2) {
            Some(twice) => self.fontsize.checked_add(twice),
            None => None,
        }
    }
}

/// The family of the font to ask for: the one named, or a monospaced one.
pub fn font_family(fontname: &Option<String>) -> (r: String)
    ensures
        r@ == match *fontname {
            Some(name) => name@,
            None => "monospace"@,
        },
{
    match fontname {
        Some(name) => name.clone(),
        None => "monospace".to_owned(),
    }
}

/// The text that is laid out for a segment: the text of the segment and
/// one space, so that the offset behind the text is that of a glyph.
pub fn layout_text(text: &str) -> (r: String)
    ensures
        r@ == text@ + " "@,
{
    text.to_owned().concat(" ")
}

/// Computes one channel of a colour under a coverage.
fn channel_under(channel: u16, shade: Shade, value: u32) -> (r: u16)
    ensures
        r == intensity(channel, shade, value),
{
    let units: u64 = to_unit_fraction(value);
    proof {
        assert(channel as int * units as int <= 0xffff * 0x1_0000_0000) by (nonlinear_arith)
            requires
                0 <= channel <= 0xffff,
                0 <= units <= 0x1_0000_0000,
        ;
        assert(channel as int * units as int >= 0) by (nonlinear_arith)
            requires
                0 <= channel,
                0 <= units,
        ;
    }
    let product: u64 = channel as u64 * units;
    let part: u64 = match shade {
        Shade::Primary => product / UNIT,
        Shade::Secondary => product / (2 * UNIT),
    };
    proof {
        lemma_div_is_ordered(product as int, 0xffff_0000_0000int, UNIT as int);
        lemma_div_is_ordered(product as int, 0xffff_0000_0000int, 2 * UNIT as int);
    }
    part as u16
}

impl FontRenderer {
    /// A renderer with a zeroed buffer of `width` by `height` pixels in the
    /// server's format for `depth`, for the root visual of the screen.
    pub fn new(
        depth: u8,
        width: u16,
        height: u16,
        options: &RunOptions,
        formats: &Vec<PixmapFormat>,
        order: u8,
        allowed_depths: &Vec<Depth>,
        root_visual: u32,
    ) -> (r: Result<FontRenderer, RenderError>)
        ensures
            r is Ok <==> {
                &&& addressable(width, height)
                &&& native_format(formats@, depth, formats@.len()) matches Some(f) && supported(
                    f,
                    order,
                )
                &&& judged(find_visual(allowed_depths.deep_view(), root_visual, allowed_depths@.len()))
                    is Ok
            },
            r matches Ok(renderer) ==> {
                &&& renderer@.width == width
                &&& renderer@.height == height
                &&& native_format(formats@, depth, formats@.len()) matches Some(f)
                    && renderer@.bits == f.bits_per_pixel
                &&& renderer@.margin == options.margin
                &&& renderer@.color == options.color
                &&& judged(find_visual(allowed_depths.deep_view(), root_visual, allowed_depths@.len()))
                    == Ok::<PixelLayoutView, VisualError>(renderer@.layout)
                &&& forall|x: int, y: int|
                    on_grid(width, height, x, y) ==> #[trigger] renderer@.pixels[(x, y)] == 0
            },
            r matches Err(e) ==> e == (if !addressable(width, height) {
                RenderError::TooLarge
            } else if !(native_format(formats@, depth, formats@.len()) matches Some(f) && supported(
                f,
                order,
            )) {
                RenderError::Format
            } else {
                RenderError::Visual(
                    judged(
                        find_visual(allowed_depths.deep_view(), root_visual, allowed_depths@.len()),
                    )->Err_0,
                )
            }),
    {
        let rows: u64 = height as u64;
        let row_bytes: u64 = width as u64 * 4 + 4;
        proof {
            assert(row_bytes as int * rows as int <= 0x4_0000 * 0xffff) by (nonlinear_arith)
                requires
                    0 <= row_bytes <= 0x4_0000,
                    0 <= rows <= 0xffff,
            ;
            assert(row_bytes as int * rows as int >= 0) by (nonlinear_arith)
                requires
                    0 <= row_bytes,
                    0 <= rows,
            ;
        }
        if row_bytes * rows > usize::MAX as u64 {
            return Err(RenderError::TooLarge);
        }
        let image = match allocate_native(width, height, depth, formats, order) {
            Some(image) => image,
            None => {
                return Err(RenderError::Format);
            },
        };
        let pixel_layout = match check_visual(allowed_depths, root_visual) {
            Ok(layout) => layout,
            Err(e) => {
                return Err(RenderError::Visual(e));
            },
        };
        Ok(FontRenderer { image, margin: options.margin, color: options.color, pixel_layout })
    }

    /// The pixel buffer, to hand to the server.
    pub fn image(&self) -> (r: &Image<'static>)
        ensures
            image_pixels(*r) == self@.pixels,
            image_width(*r) == self@.width,
            image_height(*r) == self@.height,
    {
        &self.image
    }

    /// The width of the buffer in pixels.
    pub fn width(&self) -> (r: u16)
        ensures
            r == self@.width,
    {
        width_of(&self.image)
    }

    /// The height of the buffer in pixels.
    pub fn height(&self) -> (r: u16)
        ensures
            r == self@.height,
    {
        height_of(&self.image)
    }

    /// The layout of the pixel values in the buffer.
    pub fn pixel_layout(&self) -> (r: PixelLayout)
        ensures
            r@ == self@.layout,
    {
        self.pixel_layout
    }

    /// The value of the pixel at `(x, y)`, if the buffer has one there.
    pub fn pixel(&self, x: u16, y: u16) -> (r: Option<u32>)
        ensures
            r is Some <==> on_grid(self@.width, self@.height, x as int, y as int),
            r matches Some(p) ==> p == self@.pixels[(x as int, y as int)],
    {
        if x < width_of(&self.image) && y < height_of(&self.image) {
            Some(get_pixel(&self.image, x, y))
        } else {
            None
        }
    }

    /// Sets every pixel of the buffer to zero.
    pub fn clear(&mut self)
        ensures
            final(self)@ == old(self)@.with_pixels(
                cleared(old(self)@.pixels, old(self)@.width, old(self)@.height),
            ),
    {
        let width: u16 = width_of(&self.image);
        let height: u16 = height_of(&self.image);
        let ghost start = self@;
        let mut y: u16 = 0;
        proof {
            assert(zeroed(start.pixels, width, height, 0, 0) =~= start.pixels);
        }
        while y < height
            invariant
                y <= height,
                width == start.width,
                height == start.height,
                self@ == start.with_pixels(zeroed(start.pixels, width, height, y as int, 0)),
            decreases height - y,
        {
            let mut x: u16 = 0;
            while x < width
                invariant
                    y < height,
                    x <= width,
                    width == start.width,
                    height == start.height,
                    self@ == start.with_pixels(
                        zeroed(start.pixels, width, height, y as int, x as int),
                    ),
                decreases width - x,
            {
                proof {
                    lemma_pow2_pos(start.bits as nat);
                    lemma_basic_div(0, pow2(start.bits as nat) as int);
                    assert(stored(0, start.bits) == 0);
                    assert(zeroed(start.pixels, width, height, y as int, x as int).insert(
                        (x as int, y as int),
                        0,
                    ) =~= zeroed(start.pixels, width, height, y as int, x + 1));
                }
                put_pixel(&mut self.image, x, y, 0);
                x = x + 1;
            }
            proof {
                assert(zeroed(start.pixels, width, height, y as int, width as int) =~= zeroed(
                    start.pixels,
                    width,
                    height,
                    y + 1,
                    0,
                ));
            }
            y = y + 1;
        }
        proof {
            assert(zeroed(start.pixels, width, height, height as int, 0) =~= cleared(
                start.pixels,
                width,
                height,
            ));
        }
    }

    /// Paints the coverage of one glyph whose box is `bounds`, in a text
    /// that starts at `offset`. Says whether a sample lay at or right of
    /// the right boundary.
    fn paint(&mut self, offset: u16, bounds: PixelBox, samples: &Vec<Coverage>, shade: Shade) -> (outside:
        bool)
        ensures
            final(self)@ == old(self)@.with_pixels(
                painted(
                    old(self)@.pixels,
                    old(self)@.brush(shade),
                    offset,
                    bounds,
                    samples@,
                    samples@.len(),
                ),
            ),
            outside == overruns(old(self)@.brush(shade), offset, bounds, samples@, samples@.len()),
    {
        let width: u16 = width_of(&self.image);
        let height: u16 = height_of(&self.image);
        let boundary: i64 = width as i64 - 2 * (self.margin as i64);
        let ghost start = self@;
        let ghost brush = start.brush(shade);
        let mut outside: bool = false;
        let mut k: usize = 0;
        while k < samples.len()
            invariant
                k <= samples@.len(),
                width == start.width,
                height == start.height,
                boundary == limit(start.width, start.margin),
                brush == start.brush(shade),
                self.margin == start.margin,
                self@ == start.with_pixels(
                    painted(start.pixels, brush, offset, bounds, samples@, k as nat),
                ),
                outside == overruns(brush, offset, bounds, samples@, k as nat),
            decreases samples@.len() - k,
        {
            let sample = samples[k];
            let x: i64 = self.margin as i64 + offset as i64 + bounds.min_x as i64 + sample.x as i64;
            let y: i64 = self.margin as i64 + bounds.min_y as i64 + sample.y as i64;
            if x >= boundary {
                outside = true;
            } else if 0 <= x && 0 <= y && y < height as i64 {
                let pixel: u32 = self.pixel_layout.encode(
                    (
                        channel_under(self.color.0, shade, sample.value),
                        channel_under(self.color.1, shade, sample.value),
                        channel_under(self.color.2, shade, sample.value),
                    ),
                );
                put_pixel(&mut self.image, x as u16, y as u16, pixel);
            }
            k = k + 1;
        }
        outside
    }

    /// Draws the glyphs of one text from the offset `offset` in a shade of
    /// the colour, and reports the offset behind the text. Drawing stops
    /// with the first glyph that reaches the right boundary.
    pub fn render_glyphs(&mut self, offset: u16, glyphs: &Vec<Glyph>, shade: Shade) -> (r: Drawn)
        ensures
            final(self)@ == old(self)@.with_pixels(
                text_drawn(old(self)@.pixels, old(self)@.brush(shade), offset, glyphs.deep_view()).pixels,
            ),
            r.next_x == text_drawn(
                old(self)@.pixels,
                old(self)@.brush(shade),
                offset,
                glyphs.deep_view(),
            ).next_x,
            r.clipped == text_drawn(
                old(self)@.pixels,
                old(self)@.brush(shade),
                offset,
                glyphs.deep_view(),
            ).clipped,
            forall|x: int, y: int|
                !visible(old(self)@.brush(shade), x, y) ==> #[trigger] final(self)@.pixels[(x, y)]
                    == old(self)@.pixels[(x, y)],
    {
        let ghost start = self@;
        let ghost brush = start.brush(shade);
        let ghost first = Canvas { pixels: start.pixels, next_x: offset, clipped: false };
        let mut next_x: u16 = offset;
        let mut clipped: bool = false;
        let mut g: usize = 0;
        while g < glyphs.len()
            invariant
                g <= glyphs@.len(),
                glyphs.deep_view().len() == glyphs@.len(),
                brush == start.brush(shade),
                first == (Canvas { pixels: start.pixels, next_x: offset, clipped: false }),
                self@ == start.with_pixels(
                    drawn(first, brush, offset, glyphs.deep_view(), g as nat).pixels,
                ),
                next_x == drawn(first, brush, offset, glyphs.deep_view(), g as nat).next_x,
                clipped == drawn(first, brush, offset, glyphs.deep_view(), g as nat).clipped,
            decreases glyphs@.len() - g,
        {
            let glyph = &glyphs[g];
            proof {
                assert(glyphs.deep_view()[g as int] == glyph.deep_view());
                assert(self@.brush(shade) == brush);
            }
            if !clipped {
                match glyph.bounds {
                    None => {
                        next_x = shift_offset(offset, glyph.origin_x as i64);
                    },
                    Some(bounds) => {
                        let outside = self.paint(offset, bounds, &glyph.coverage, shade);
                        if outside {
                            clipped = true;
                        } else {
                            next_x = shift_offset(offset, bounds.max_x as i64);
                        }
                    },
                }
            }
            g = g + 1;
        }
        proof {
            assert forall|x: int, y: int| !visible(brush, x, y) implies #[trigger] self@.pixels[(
                x,
                y,
            )] == start.pixels[(x, y)] by {
                lemma_drawn_outside(first, brush, offset, glyphs.deep_view(), glyphs@.len(), x, y);
            }
        }
        Drawn { next_x, clipped }
    }

    /// Renders one line: the buffer is cleared, and the segments of the
    /// line composed for the query, the matches and the highlight are drawn
    /// one behind the other, each with the glyphs laid out for it, until
    /// one is clipped at the right boundary or the offset passes the width.
    pub fn render_text(
        &mut self,
        input: &str,
        matches: &Vec<String>,
        matches_i: Option<usize>,
        layouts: &Vec<Vec<Glyph>>,
    )
        ensures
            final(self)@ == old(self)@.with_pixels(
                line_drawn(
                    Canvas {
                        pixels: cleared(old(self)@.pixels, old(self)@.width, old(self)@.height),
                        next_x: 0,
                        clipped: false,
                    },
                    old(self)@.brush(Shade::Primary),
                    composed(input@, matches.deep_view(), matches_i),
                    layouts.deep_view(),
                    drawable(composed(input@, matches.deep_view(), matches_i), layouts.deep_view()),
                ).pixels,
            ),
            forall|x: int, y: int|
                on_grid(old(self)@.width, old(self)@.height, x, y) && x >= limit(
                    old(self)@.width,
                    old(self)@.margin,
                ) ==> #[trigger] final(self)@.pixels[(x, y)] == 0,
    {
        let ghost before = self@;
        self.clear();
        let line = compose(input, matches, matches_i);
        let width: u16 = width_of(&self.image);
        let n: usize = if line.len() <= layouts.len() {
            line.len()
        } else {
            layouts.len()
        };
        let ghost start = self@;
        let ghost brush = start.brush(Shade::Primary);
        let ghost first = Canvas { pixels: start.pixels, next_x: 0, clipped: false };
        let mut x: u16 = 0;
        let mut stopped: bool = false;
        let mut k: usize = 0;
        while k < n
            invariant
                k <= n,
                n <= line@.len(),
                n <= layouts@.len(),
                line.deep_view().len() == line@.len(),
                layouts.deep_view().len() == layouts@.len(),
                width == start.width,
                brush == start.brush(Shade::Primary),
                first == (Canvas { pixels: start.pixels, next_x: 0, clipped: false }),
                self@ == start.with_pixels(
                    line_drawn(first, brush, line.deep_view(), layouts.deep_view(), k as nat).pixels,
                ),
                x == line_drawn(first, brush, line.deep_view(), layouts.deep_view(), k as nat).next_x,
                stopped == line_drawn(
                    first,
                    brush,
                    line.deep_view(),
                    layouts.deep_view(),
                    k as nat,
                ).clipped,
            decreases n - k,
        {
            proof {
                assert(line.deep_view()[k as int] == line@[k as int].deep_view());
                assert(layouts.deep_view()[k as int] == layouts@[k as int].deep_view());
                assert(shaded(brush, line@[k as int].shade) == self@.brush(line@[k as int].shade));
            }
            if !stopped {
                let r = self.render_glyphs(x, &layouts[k], line[k].shade);
                x = r.next_x;
                stopped = r.clipped || x > width;
            }
            k = k + 1;
        }
        proof {
            assert forall|x: int, y: int|
                on_grid(before.width, before.height, x, y) && x >= limit(
                    before.width,
                    before.margin,
                ) implies #[trigger] self@.pixels[(x, y)] == 0 by {
                lemma_line_drawn_outside(
                    first,
                    brush,
                    line.deep_view(),
                    layouts.deep_view(),
                    n as nat,
                    x,
                    y,
                );
            }
        }
    }
}

/// Moves an offset by `dx` pixels, within 16 bits.
fn shift_offset(offset: u16, dx: i64) -> (r: u16)
    requires
        -0x8000_0000 <= dx <= 0x7fff_ffff,
    ensures
        r == moved(offset, dx as int),
{
    let to: i64 = offset as i64 + dx;
    if to < 0 {
        0
    } else if to > 0xffff {
        0xffff
    } else {
        to as u16
    }
}

/// Painting a glyph changes no pixel that is not visible: none outside the
/// buffer, and none at or right of the right boundary.
pub proof fn lemma_painted_outside(
    pixels: Map<(int, int), u32>,
    brush: Brush,
    offset: u16,
    bounds: PixelBox,
    samples: Seq<Coverage>,
    n: nat,
    x: int,
    y: int,
)
    requires
        !visible(brush, x, y),
    ensures
        painted(pixels, brush, offset, bounds, samples, n).dom().contains((x, y))
            == pixels.dom().contains((x, y)),
        painted(pixels, brush, offset, bounds, samples, n)[(x, y)] == pixels[(x, y)],
    decreases n,
{
    if n == 0 || n > samples.len() {
    } else {
        lemma_painted_outside(pixels, brush, offset, bounds, samples, (n - 1) as nat, x, y);
    }
}

/// Drawing a text changes no pixel that is not visible.
pub proof fn lemma_drawn_outside(
    canvas: Canvas,
    brush: Brush,
    offset: u16,
    glyphs: Seq<GlyphView>,
    n: nat,
    x: int,
    y: int,
)
    requires
        !visible(brush, x, y),
    ensures
        drawn(canvas, brush, offset, glyphs, n).pixels.dom().contains((x, y))
            == canvas.pixels.dom().contains((x, y)),
        drawn(canvas, brush, offset, glyphs, n).pixels[(x, y)] == canvas.pixels[(x, y)],
    decreases n,
{
    if n == 0 || n > glyphs.len() {
    } else {
        lemma_drawn_outside(canvas, brush, offset, glyphs, (n - 1) as nat, x, y);
        let before = drawn(canvas, brush, offset, glyphs, (n - 1) as nat);
        match glyphs[n - 1].bounds {
            None => {},
            Some(bounds) => {
                lemma_painted_outside(
                    before.pixels,
                    brush,
                    offset,
                    bounds,
                    glyphs[n - 1].coverage,
                    glyphs[n - 1].coverage.len(),
                    x,
                    y,
                );
            },
        }
    }
}

/// Drawing a line changes no pixel that is not visible: what lies at or
/// right of the right boundary stays as it was.
pub proof fn lemma_line_drawn_outside(
    canvas: Canvas,
    brush: Brush,
    line: Seq<(Seq<char>, Shade)>,
    layouts: Seq<Seq<GlyphView>>,
    n: nat,
    x: int,
    y: int,
)
    requires
        !visible(brush, x, y),
    ensures
        line_drawn(canvas, brush, line, layouts, n).pixels.dom().contains((x, y))
            == canvas.pixels.dom().contains((x, y)),
        line_drawn(canvas, brush, line, layouts, n).pixels[(x, y)] == canvas.pixels[(x, y)],
    decreases n,
{
    if n == 0 || n > line.len() || n > layouts.len() {
    } else {
        lemma_line_drawn_outside(canvas, brush, line, layouts, (n - 1) as nat, x, y);
        let before = line_drawn(canvas, brush, line, layouts, (n - 1) as nat);
        if !before.clipped {
            let pen = shaded(brush, line[n - 1].1);
            assert(!visible(pen, x, y));
            lemma_drawn_outside(
                Canvas { pixels: before.pixels, next_x: before.next_x, clipped: false },
                pen,
                before.next_x,
                layouts[n - 1],
                layouts[n - 1].len(),
                x,
                y,
            );
        }
    }
}

/// Once a glyph is clipped, no later glyph of the text is drawn.
pub proof fn lemma_drawn_stops(
    canvas: Canvas,
    brush: Brush,
    offset: u16,
    glyphs: Seq<GlyphView>,
    n: nat,
    m: nat,
)
    requires
        n <= m <= glyphs.len(),
        drawn(canvas, brush, offset, glyphs, n).clipped,
    ensures
        drawn(canvas, brush, offset, glyphs, m) == drawn(canvas, brush, offset, glyphs, n),
    decreases m,
{
    if n < m {
        lemma_drawn_stops(canvas, brush, offset, glyphs, n, (m - 1) as nat);
    }
}

/// Once a segment is clipped, or the offset has passed the width, no later
/// segment of the line is drawn.
pub proof fn lemma_line_stops(
    canvas: Canvas,
    brush: Brush,
    line: Seq<(Seq<char>, Shade)>,
    layouts: Seq<Seq<GlyphView>>,
    n: nat,
    m: nat,
)
    requires
        n <= m <= drawable(line, layouts),
        line_drawn(canvas, brush, line, layouts, n).clipped,
    ensures
        line_drawn(canvas, brush, line, layouts, m) == line_drawn(canvas, brush, line, layouts, n),
    decreases m,
{
    if n < m {
        lemma_line_stops(canvas, brush, line, layouts, n, (m - 1) as nat);
    }
}

} // verus!
