//! Text drawn by the X server itself with a core font: the requests that
//! set up a graphics context for a font and draw a label with it. The
//! identifiers come from the connection, and the requests go out over it.

use vstd::prelude::*;
use vstd::string::{StringSliceAdditionalSpecFns, is_ascii, is_ascii_spec_bytes};
use vstd::utf8::encode_utf8;

verus! {

/// The longest font name, in bytes, that an `OpenFont` request can carry.
pub const MAX_FONT_NAME: usize = 0xffff;

/// The longest string, in bytes, that an `ImageText8` request can carry.
pub const MAX_LABEL: usize = 0xff;

/// The pixel values of a screen that a label is drawn with.
#[derive(Clone, Copy, Debug)]
pub struct ScreenColors {
    pub black_pixel: u32,
    pub white_pixel: u32,
}

/// One request of the core protocol.
#[derive(Debug)]
pub enum Request {
    OpenFont { fid: u32, name: Vec<u8> },
    CreateGc { cid: u32, drawable: u32, foreground: u32, background: u32, font: u32 },
    CloseFont { font: u32 },
    ImageText8 { drawable: u32, gc: u32, x: i16, y: i16, string: Vec<u8> },
    FreeGc { gc: u32 },
}

/// A request as a mathematical value.
pub enum RequestView {
    OpenFont { fid: u32, name: Seq<u8> },
    CreateGc { cid: u32, drawable: u32, foreground: u32, background: u32, font: u32 },
    CloseFont { font: u32 },
    ImageText8 { drawable: u32, gc: u32, x: i16, y: i16, string: Seq<u8> },
    FreeGc { gc: u32 },
}

impl DeepView for Request {
    type V = RequestView;

    open spec fn deep_view(&self) -> RequestView {
        match *self {
            Request::OpenFont { fid, name } => RequestView::OpenFont { fid, name: name@ },
            Request::CreateGc { cid, drawable, foreground, background, font } => RequestView::CreateGc {
                cid,
                drawable,
                foreground,
                background,
                font,
            },
            Request::CloseFont { font } => RequestView::CloseFont { font },
            Request::ImageText8 { drawable, gc, x, y, string } => RequestView::ImageText8 {
                drawable,
                gc,
                x,
                y,
                string: string@,
            },
            Request::FreeGc { gc } => RequestView::FreeGc { gc },
        }
    }
}

/// The requests that leave `gc` a graphics context of `window` that draws
/// black on white in the font `font_name`: the font is opened as `font`,
/// the context is made with it, and the font is closed again.
pub open spec fn font_context_requests(
    screen: ScreenColors,
    window: u32,
    font_name: Seq<u8>,
    font: u32,
    gc: u32,
) -> Seq<RequestView> {
    seq![
        RequestView::OpenFont { fid: font, name: font_name },
        RequestView::CreateGc {
            cid: gc,
            drawable: window,
            foreground: screen.black_pixel,
            background: screen.white_pixel,
            font,
        },
        RequestView::CloseFont { font },
    ]
}

/// The requests that draw `label` at `(x1, y1)` in `window`: a context for
/// the label font is set up, the label is drawn with it, and the context is
/// freed.
pub open spec fn label_requests(
    screen: ScreenColors,
    window: u32,
    x1: i16,
    y1: i16,
    label: Seq<u8>,
    font: u32,
    gc: u32,
) -> Seq<RequestView> {
    font_context_requests(screen, window, encode_utf8(label_font_name()), font, gc) + seq![
        RequestView::ImageText8 { drawable: window, gc, x: x1, y: y1, string: label },
        RequestView::FreeGc { gc },
    ]
}

/// The name of the font in which labels are drawn.
pub open spec fn label_font_name() -> Seq<char> {
    "-xos4-terminus-medium-r-normal--32-320-72-72-c-160-iso10646-1"@
}

/// The name of the font in which labels are drawn.
pub fn label_font() -> (r: &'static str)
    ensures
        r@ == label_font_name(),
        encode_utf8(r@).len() <= MAX_FONT_NAME,
{
    let name = "-xos4-terminus-medium-r-normal--32-320-72-72-c-160-iso10646-1";
    proof {
        reveal_strlit("-xos4-terminus-medium-r-normal--32-320-72-72-c-160-iso10646-1");
        assert(is_ascii(name));
        is_ascii_spec_bytes(name);
    }
    name
}

/// Plans the requests for a graphics context with the font `font_name`, for
/// the fresh identifiers `font` and `gc`. A name too long for a request
/// yields no plan.
pub fn gc_font_get(screen: &ScreenColors, window: u32, font_name: &str, font: u32, gc: u32) -> (r:
    Option<Vec<Request>>)
    ensures
        r is Some <==> font_name.spec_bytes().len() <= MAX_FONT_NAME,
        r matches Some(requests) ==> requests.deep_view() == font_context_requests(
            *screen,
            window,
            font_name.spec_bytes(),
            font,
            gc,
        ),
{
    if font_name.as_bytes().len() > MAX_FONT_NAME {
        return None;
    }
    let mut requests: Vec<Request> = Vec::new();
    requests.push(Request::OpenFont { fid: font, name: font_name.as_bytes_vec() });
    requests.push(
        Request::CreateGc {
            cid: gc,
            drawable: window,
            foreground: screen.black_pixel,
            background: screen.white_pixel,
            font,
        },
    );
    requests.push(Request::CloseFont { font });
    proof {
        assert(requests.deep_view() =~= font_context_requests(
            *screen,
            window,
            font_name.spec_bytes(),
            font,
            gc,
        ));
    }
    Some(requests)
}

/// Plans the requests that draw `label` at `(x1, y1)` in `window`, for the
/// fresh identifiers `font` and `gc`. A label too long for a request yields
/// no plan.
pub fn text_draw(
    screen: &ScreenColors,
    window: u32,
    x1: i16,
    y1: i16,
    label: &str,
    font: u32,
    gc: u32,
) -> (r: Option<Vec<Request>>)
    ensures
        r is Some <==> label.spec_bytes().len() <= MAX_LABEL,
        r matches Some(requests) ==> requests.deep_view() == label_requests(
            *screen,
            window,
            x1,
            y1,
            label.spec_bytes(),
            font,
            gc,
        ),
{
    if label.as_bytes().len() > MAX_LABEL {
        return None;
    }
    let name = label_font();
    match gc_font_get(screen, window, name, font, gc) {
        None => None,
        Some(mut requests) => {
            requests.push(
                Request::ImageText8 { drawable: window, gc, x: x1, y: y1, string: label.as_bytes_vec() },
            );
            requests.push(Request::FreeGc { gc });
            proof {
                assert(requests.deep_view() =~= label_requests(
                    *screen,
                    window,
                    x1,
                    y1,
                    label.spec_bytes(),
                    font,
                    gc,
                ));
            }
            Some(requests)
        },
    }
}

} // verus!
