use dmitri::core_font::{gc_font_get, label_font, text_draw, Request, ScreenColors};

fn screen() -> ScreenColors {
    ScreenColors { black_pixel: 0, white_pixel: 0xffffff }
}

#[test]
fn a_font_context_takes_three_requests() {
    let plan = gc_font_get(&screen(), 7, "fixed", 100, 101).unwrap();
    assert_eq!(plan.len(), 3);
    match &plan[0] {
        Request::OpenFont { fid, name } => {
            assert_eq!(*fid, 100);
            assert_eq!(name, b"fixed");
        }
        other => panic!("unexpected {:?}", other),
    }
    match &plan[1] {
        Request::CreateGc { cid, drawable, foreground, background, font } => {
            assert_eq!((*cid, *drawable, *foreground, *background, *font), (101, 7, 0, 0xffffff, 100));
        }
        other => panic!("unexpected {:?}", other),
    }
    match &plan[2] {
        Request::CloseFont { font } => assert_eq!(*font, 100),
        other => panic!("unexpected {:?}", other),
    }
}

#[test]
fn a_font_name_has_to_fit_the_request() {
    let long = "x".repeat(0x10000);
    assert!(gc_font_get(&screen(), 7, &long, 100, 101).is_none());
    let fits = "x".repeat(0xffff);
    assert!(gc_font_get(&screen(), 7, &fits, 100, 101).is_some());
}

#[test]
fn a_label_is_drawn_with_a_fresh_context() {
    let plan = text_draw(&screen(), 7, 5, 35, "OK", 100, 101).unwrap();
    assert_eq!(plan.len(), 5);
    match &plan[0] {
        Request::OpenFont { fid, name } => {
            assert_eq!(*fid, 100);
            assert_eq!(name.as_slice(), label_font().as_bytes());
            assert_eq!(
                label_font(),
                "-xos4-terminus-medium-r-normal--32-320-72-72-c-160-iso10646-1"
            );
        }
        other => panic!("unexpected {:?}", other),
    }
    assert!(matches!(&plan[1], Request::CreateGc { cid: 101, drawable: 7, font: 100, .. }));
    assert!(matches!(&plan[2], Request::CloseFont { font: 100 }));
    match &plan[3] {
        Request::ImageText8 { drawable, gc, x, y, string } => {
            assert_eq!((*drawable, *gc, *x, *y), (7, 101, 5, 35));
            assert_eq!(string, b"OK");
        }
        other => panic!("unexpected {:?}", other),
    }
    assert!(matches!(&plan[4], Request::FreeGc { gc: 101 }));
}

#[test]
fn a_label_has_to_fit_the_request() {
    assert!(text_draw(&screen(), 7, 0, 0, &"x".repeat(255), 1, 2).is_some());
    assert!(text_draw(&screen(), 7, 0, 0, &"x".repeat(256), 1, 2).is_none());
    assert!(text_draw(&screen(), 7, 0, 0, "", 1, 2).is_some());
}
