use dmitri::compose::{compose, Shade};
use dmitri::image::PixmapFormat;
use dmitri::text::{
    color_from_u8, font_family, layout_text, Coverage, Drawn, FontRenderer, Glyph, PixelBox,
    RenderError, RunOptions,
};
use dmitri::visual::{
    check_visual, ColorComponent, Depth, PixelLayout, Visual, VisualError, DIRECT_COLOR, TRUE_COLOR,
};
use dmitri::weight::Weight;

fn rgb(id: u32, class: u8) -> Visual {
    Visual { visual_id: id, class, red_mask: 0xff0000, green_mask: 0xff00, blue_mask: 0xff }
}

fn depths() -> Vec<Depth> {
    vec![
        Depth { depth: 1, visuals: vec![] },
        Depth { depth: 24, visuals: vec![rgb(32, 3), rgb(33, TRUE_COLOR)] },
        Depth { depth: 32, visuals: vec![rgb(34, TRUE_COLOR), rgb(33, 3)] },
    ]
}

fn formats() -> Vec<PixmapFormat> {
    vec![
        PixmapFormat { depth: 1, bits_per_pixel: 1, scanline_pad: 32 },
        PixmapFormat { depth: 24, bits_per_pixel: 32, scanline_pad: 32 },
        PixmapFormat { depth: 24, bits_per_pixel: 24, scanline_pad: 8 },
        PixmapFormat { depth: 16, bits_per_pixel: 16, scanline_pad: 7 },
    ]
}

fn options(margin: u16) -> RunOptions {
    RunOptions::new(None, None, None, Some(margin), None)
}

fn renderer(width: u16, height: u16, margin: u16) -> FontRenderer {
    FontRenderer::new(24, width, height, &options(margin), &formats(), 0, &depths(), 33).unwrap()
}

fn full() -> u32 {
    1.0f32.to_bits()
}

/// A glyph that covers a `w` by `h` box fully, `x` pixels into its text.
fn block(x: i32, w: u32, h: u32) -> Glyph {
    let mut coverage = Vec::new();
    for py in 0..h {
        for px in 0..w {
            coverage.push(Coverage { x: px, y: py, value: full() });
        }
    }
    Glyph {
        bounds: Some(PixelBox { min_x: x, min_y: 0, max_x: x + w as i32, max_y: h as i32 }),
        origin_x: x as u16,
        coverage,
    }
}

/// The glyph of a space whose origin lies `x` pixels into its text.
fn space(x: u16) -> Glyph {
    Glyph { bounds: None, origin_x: x, coverage: vec![] }
}

fn names(list: &[&str]) -> Vec<String> {
    list.iter().map(|s| s.to_string()).collect()
}

#[test]
fn colors_widen_to_sixteen_bits() {
    assert_eq!(color_from_u8((255, 127, 0)), (65535, 32512, 0));
    assert_eq!(color_from_u8((0, 0, 0)), (255, 0, 0));
    assert_eq!(color_from_u8((1, 2, 255)), (511, 512, 65280));
}

#[test]
fn options_default_to_the_usual_values() {
    let o = RunOptions::new(None, None, None, None, None);
    assert_eq!(o.fontname, None);
    assert_eq!(o.fontsize, 32);
    assert_eq!(o.color, (65535, 32512, 0));
    assert_eq!(o.margin, 7);
    assert_eq!(o.precise_wheight.parts(), (5, 0));
    assert_eq!(o.window_height(), Some(46));
    let o = RunOptions::new(
        Some("serif".to_string()),
        Some(10),
        Some((1, 2, 3)),
        Some(2),
        Weight::whole(1),
    );
    assert_eq!(o.fontname, Some("serif".to_string()));
    assert_eq!(o.fontsize, 10);
    assert_eq!(o.color, (511, 512, 768));
    assert_eq!(o.margin, 2);
    assert_eq!(o.precise_wheight.parts(), (1, 0));
    assert_eq!(o.window_height(), Some(14));
}

#[test]
fn the_window_height_has_to_fit() {
    let o = RunOptions::new(None, Some(65535), None, Some(0), None);
    assert_eq!(o.window_height(), Some(65535));
    let o = RunOptions::new(None, Some(65534), None, Some(1), None);
    assert_eq!(o.window_height(), None);
    let o = RunOptions::new(None, Some(0), None, Some(32768), None);
    assert_eq!(o.window_height(), None);
}

#[test]
fn the_font_family_defaults_to_monospace() {
    assert_eq!(font_family(&None), "monospace");
    assert_eq!(font_family(&Some("serif".to_string())), "serif");
    assert_eq!(layout_text("abc"), "abc ");
    assert_eq!(layout_text(""), " ");
}

#[test]
fn masks_give_components() {
    let c = ColorComponent::from_mask(0xff0000).unwrap();
    assert_eq!((c.width(), c.shift()), (8, 16));
    let c = ColorComponent::from_mask(0x7e0).unwrap();
    assert_eq!((c.width(), c.shift()), (6, 5));
    let c = ColorComponent::from_mask(0xffff0000).unwrap();
    assert_eq!((c.width(), c.shift()), (16, 16));
    assert!(ColorComponent::from_mask(0).is_none());
    assert!(ColorComponent::from_mask(0x5).is_none());
    assert!(ColorComponent::from_mask(0x1ffff).is_none());
    assert!(ColorComponent::new(17, 0).is_none());
    assert!(ColorComponent::new(8, 32).is_none());
    assert!(ColorComponent::new(16, 17).is_none());
    let c = ColorComponent::new(16, 16).unwrap();
    assert_eq!(c.encode(0xabcd), 0xabcd0000);
    let c = ColorComponent::new(8, 16).unwrap();
    assert_eq!(c.encode(0xabcd), 0xab0000);
    let c = ColorComponent::new(0, 0).unwrap();
    assert_eq!(c.encode(0xffff), 0);
}

#[test]
fn layouts_encode_like_the_image_crate() {
    let layout = PixelLayout::new(
        ColorComponent::new(8, 16).unwrap(),
        ColorComponent::new(8, 8).unwrap(),
        ColorComponent::new(8, 0).unwrap(),
    );
    assert_eq!(layout.encode((0xabab, 0x4343, 0x2121)), 0x00ab_4321);
    assert_eq!(layout.depth(), 24);
    let theirs = x11rb::image::PixelLayout::new(
        x11rb::image::ColorComponent::new(5, 11).unwrap(),
        x11rb::image::ColorComponent::new(6, 5).unwrap(),
        x11rb::image::ColorComponent::new(5, 0).unwrap(),
    );
    let ours = PixelLayout::new(
        ColorComponent::new(5, 11).unwrap(),
        ColorComponent::new(6, 5).unwrap(),
        ColorComponent::new(5, 0).unwrap(),
    );
    for color in [(0, 0, 0), (0xffff, 0xffff, 0xffff), (0x1234, 0xfedc, 0x8000), (1, 2, 3)] {
        assert_eq!(ours.encode(color), theirs.encode(color));
    }
    assert_eq!(ours.depth(), theirs.depth());
}

#[test]
fn the_root_visual_is_checked() {
    let layout = check_visual(&depths(), 33).unwrap();
    assert_eq!(layout.encode((0xffff, 0x8000, 0x0100)), 0xff8001);
    assert_eq!(check_visual(&depths(), 34).unwrap_err(), VisualError::DepthMismatch);
    assert_eq!(check_visual(&depths(), 32).unwrap_err(), VisualError::NotTrueColor);
    assert_eq!(check_visual(&depths(), 35).unwrap_err(), VisualError::NotFound);
    assert_eq!(check_visual(&vec![], 33).unwrap_err(), VisualError::NotFound);
    let bad = vec![Depth {
        depth: 24,
        visuals: vec![Visual {
            visual_id: 1,
            class: DIRECT_COLOR,
            red_mask: 0xff0000,
            green_mask: 0xf0f0,
            blue_mask: 0xff,
        }],
    }];
    assert_eq!(check_visual(&bad, 1).unwrap_err(), VisualError::Malformed);
    let direct = vec![Depth { depth: 24, visuals: vec![rgb(7, DIRECT_COLOR)] }];
    assert!(check_visual(&direct, 7).is_ok());
}

#[test]
fn a_new_renderer_is_zeroed() {
    let r = renderer(100, 20, 5);
    assert_eq!(r.width(), 100);
    assert_eq!(r.height(), 20);
    assert_eq!(r.image().width(), 100);
    assert_eq!(r.image().data().len(), 100 * 20 * 4);
    for y in 0..20 {
        for x in 0..100 {
            assert_eq!(r.pixel(x, y), Some(0));
        }
    }
    assert_eq!(r.pixel(100, 0), None);
    assert_eq!(r.pixel(0, 20), None);
    assert_eq!(r.pixel_layout().depth(), 24);
}

#[test]
fn a_renderer_needs_a_format_and_a_visual() {
    let o = options(5);
    let made = |depth: u8, order: u8, visual: u32| {
        FontRenderer::new(depth, 10, 10, &o, &formats(), order, &depths(), visual).err()
    };
    assert_eq!(made(24, 0, 33), None);
    assert_eq!(made(24, 1, 33), None);
    assert_eq!(made(24, 2, 33), Some(RenderError::Format));
    assert_eq!(made(8, 0, 33), Some(RenderError::Format));
    assert_eq!(made(16, 0, 33), Some(RenderError::Format));
    assert_eq!(made(24, 0, 35), Some(RenderError::Visual(VisualError::NotFound)));
    assert_eq!(made(24, 0, 32), Some(RenderError::Visual(VisualError::NotTrueColor)));
    assert_eq!(made(8, 0, 35), Some(RenderError::Format));
}

#[test]
fn glyphs_are_blended_in_both_shades() {
    let mut r = renderer(100, 20, 5);
    let glyphs = vec![block(0, 2, 2), space(6)];
    assert_eq!(
        r.render_glyphs(0, &glyphs, Shade::Primary),
        Drawn { next_x: 6, clipped: false }
    );
    assert_eq!(r.pixel(5, 5), Some(0xff7f00));
    assert_eq!(r.pixel(6, 6), Some(0xff7f00));
    assert_eq!(r.pixel(4, 5), Some(0));
    assert_eq!(r.pixel(7, 5), Some(0));
    assert_eq!(r.pixel(5, 4), Some(0));
    assert_eq!(r.pixel(5, 7), Some(0));
    assert_eq!(
        r.render_glyphs(10, &glyphs, Shade::Secondary),
        Drawn { next_x: 16, clipped: false }
    );
    assert_eq!(r.pixel(15, 5), Some(0x7f3f00));
    assert_eq!(r.pixel(16, 6), Some(0x7f3f00));
    let half = Glyph {
        bounds: Some(PixelBox { min_x: 0, min_y: 0, max_x: 3, max_y: 1 }),
        origin_x: 0,
        coverage: vec![
            Coverage { x: 0, y: 0, value: 0.5f32.to_bits() },
            Coverage { x: 1, y: 0, value: 0.25f32.to_bits() },
            Coverage { x: 2, y: 0, value: 0.0f32.to_bits() },
        ],
    };
    assert_eq!(
        r.render_glyphs(20, &vec![half], Shade::Primary),
        Drawn { next_x: 23, clipped: false }
    );
    assert_eq!(r.pixel(25, 5), Some(0x7f3f00));
    assert_eq!(r.pixel(26, 5), Some(0x3f1f00));
    assert_eq!(r.pixel(27, 5), Some(0));
}

#[test]
fn a_glyph_at_the_boundary_is_clipped_mid_glyph() {
    let mut r = renderer(100, 20, 5);
    let glyphs = vec![block(0, 4, 2), block(4, 4, 2), block(8, 4, 2), space(12)];
    let drawn = r.render_glyphs(80, &glyphs, Shade::Primary);
    assert_eq!(drawn, Drawn { next_x: 84, clipped: true });
    for x in 85..90 {
        assert_eq!(r.pixel(x, 5), Some(0xff7f00));
        assert_eq!(r.pixel(x, 6), Some(0xff7f00));
    }
    for y in 0..20 {
        for x in 90..100 {
            assert_eq!(r.pixel(x, y), Some(0));
        }
    }
}

#[test]
fn pixels_outside_the_buffer_are_dropped() {
    let mut r = renderer(30, 8, 2);
    let tall = Glyph {
        bounds: Some(PixelBox { min_x: -4, min_y: -4, max_x: 4, max_y: 12 }),
        origin_x: 0,
        coverage: (0..16u32)
            .flat_map(|y| (0..8u32).map(move |x| Coverage { x, y, value: 1.0f32.to_bits() }))
            .collect(),
    };
    let drawn = r.render_glyphs(0, &vec![tall], Shade::Primary);
    assert_eq!(drawn, Drawn { next_x: 4, clipped: false });
    for y in 0..8 {
        for x in 0..30 {
            let expected = if x < 6 { 0xff7f00 } else { 0 };
            assert_eq!(r.pixel(x, y), Some(expected));
        }
    }
}

#[test]
fn an_offset_stays_within_sixteen_bits() {
    let mut r = renderer(30, 8, 2);
    let far = Glyph {
        bounds: Some(PixelBox { min_x: -70000, min_y: 0, max_x: -69990, max_y: 1 }),
        origin_x: 0,
        coverage: vec![Coverage { x: 0, y: 0, value: 1.0f32.to_bits() }],
    };
    assert_eq!(r.render_glyphs(10, &vec![far], Shade::Primary), Drawn { next_x: 0, clipped: false });
    assert_eq!(
        r.render_glyphs(65000, &vec![space(1000)], Shade::Primary),
        Drawn { next_x: 65535, clipped: false }
    );
    assert_eq!(r.render_glyphs(7, &vec![], Shade::Primary), Drawn { next_x: 7, clipped: false });
}

#[test]
fn a_line_is_composed_of_query_separators_and_matches() {
    let line = compose("fi", &names(&["find", "fish"]), Some(1));
    let texts: Vec<(&str, Shade)> = line.iter().map(|s| (s.text.as_str(), s.shade)).collect();
    assert_eq!(
        texts,
        vec![
            ("fi", Shade::Secondary),
            (" ", Shade::Secondary),
            ("find", Shade::Secondary),
            (" ", Shade::Secondary),
            ("fish", Shade::Primary),
        ]
    );
    let line = compose("fi", &names(&["find", "fish"]), None);
    let shades: Vec<Shade> = line.iter().map(|s| s.shade).collect();
    assert_eq!(
        shades,
        vec![Shade::Primary, Shade::Secondary, Shade::Secondary, Shade::Secondary, Shade::Secondary]
    );
    let line = compose("", &names(&["find"]), None);
    assert_eq!(line.len(), 1);
    assert_eq!((line[0].text.as_str(), line[0].shade), ("_", Shade::Primary));
    let line = compose("x", &vec![], None);
    assert_eq!(line.len(), 1);
    assert_eq!((line[0].text.as_str(), line[0].shade), ("x", Shade::Primary));
}

#[test]
fn a_line_is_rendered_segment_by_segment() {
    let mut r = renderer(100, 20, 5);
    r.render_glyphs(50, &vec![block(0, 3, 3)], Shade::Primary);
    let layouts = vec![
        vec![block(0, 4, 1), space(6)],
        vec![space(0), space(3)],
        vec![block(0, 4, 1), space(6)],
        vec![space(0), space(3)],
        vec![block(0, 4, 1), space(6)],
    ];
    r.render_text("fi", &names(&["find", "fish"]), Some(0), &layouts);
    let row: Vec<u32> = (0..30).map(|x| r.pixel(x, 5).unwrap()).collect();
    let mut expected = vec![0u32; 30];
    for x in 5..9 {
        expected[x] = 0x7f3f00;
    }
    for x in 14..18 {
        expected[x] = 0xff7f00;
    }
    for x in 23..27 {
        expected[x] = 0x7f3f00;
    }
    assert_eq!(row, expected);
    assert_eq!(r.pixel(55, 5), Some(0));
    assert_eq!(r.pixel(56, 6), Some(0));
}

#[test]
fn a_clipped_match_ends_the_line() {
    let mut r = renderer(100, 20, 5);
    let layouts = vec![
        vec![block(0, 4, 1), space(88)],
        vec![space(0), space(8)],
        vec![block(0, 4, 1), space(6)],
        vec![space(0), space(0)],
        vec![block(-96, 4, 1), space(6)],
    ];
    r.render_text("fi", &names(&["find", "fish"]), None, &layouts);
    for y in 0..20 {
        for x in 0..100 {
            let expected = if y == 5 && (5..9).contains(&x) { 0xff7f00 } else { 0 };
            assert_eq!(r.pixel(x, y), Some(expected));
        }
    }
}

#[test]
fn a_line_past_the_width_ends() {
    let mut r = renderer(20, 8, 2);
    let layouts = vec![vec![block(0, 2, 1), space(30)], vec![block(-30, 2, 1), space(0)]];
    r.render_text("fi", &names(&["find"]), None, &layouts);
    assert_eq!(r.pixel(2, 2), Some(0xff7f00));
    assert_eq!(r.pixel(3, 2), Some(0xff7f00));
    for x in 4..20 {
        assert_eq!(r.pixel(x, 2), Some(0));
    }
}

#[test]
fn missing_layouts_leave_segments_undrawn() {
    let mut r = renderer(100, 20, 5);
    r.render_text("fi", &names(&["find"]), None, &vec![vec![block(0, 1, 1), space(2)]]);
    assert_eq!(r.pixel(5, 5), Some(0xff7f00));
    r.render_text("fi", &names(&["find"]), None, &vec![]);
    assert_eq!(r.pixel(5, 5), Some(0));
    r.render_text("", &vec![], None, &vec![vec![block(0, 1, 1)], vec![block(3, 1, 1)]]);
    assert_eq!(r.pixel(5, 5), Some(0xff7f00));
    assert_eq!(r.pixel(8, 5), Some(0));
}

#[test]
fn clear_zeroes_every_pixel() {
    let mut r = renderer(16, 4, 1);
    r.render_glyphs(0, &vec![block(0, 10, 2)], Shade::Primary);
    assert_eq!(r.pixel(1, 1), Some(0xff7f00));
    r.clear();
    for y in 0..4 {
        for x in 0..16 {
            assert_eq!(r.pixel(x, y), Some(0));
        }
    }
    assert!(r.image().data().iter().all(|b| *b == 0));
}

#[test]
fn margins_wider_than_the_buffer_leave_nothing_to_draw() {
    let mut r = renderer(10, 8, 6);
    let drawn = r.render_glyphs(0, &vec![block(0, 2, 2), space(4)], Shade::Primary);
    assert_eq!(drawn, Drawn { next_x: 0, clipped: true });
    for y in 0..8 {
        for x in 0..10 {
            assert_eq!(r.pixel(x, y), Some(0));
        }
    }
}
