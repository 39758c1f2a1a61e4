use dmitri::keys::{Key, KEY_BACKSPACE, KEY_ESCAPE, KEY_RETURN, KEY_SHIFT_L, KEY_SHIFT_R, KEY_TAB};
use dmitri::picker::{Action, Event, Picker};
use dmitri::select::{advance, retreat};
use dmitri::weight::Weight;

fn names(list: &[&str]) -> Vec<String> {
    list.iter().map(|s| s.to_string()).collect()
}

fn picker(list: &[&str]) -> Picker {
    Picker::new(names(list), Weight::usual())
}

fn type_text(p: &mut Picker, text: &str) {
    for c in text.chars() {
        assert!(matches!(p.apply(Event::Press(Key::Char(c))), Action::Render));
    }
}

#[test]
fn advance_cycles_through_three_matches_and_back_to_nothing() {
    let mut s = None;
    s = advance(s, 3);
    assert_eq!(s, Some(0));
    s = advance(s, 3);
    assert_eq!(s, Some(1));
    s = advance(s, 3);
    assert_eq!(s, Some(2));
    s = advance(s, 3);
    assert_eq!(s, None);
}

#[test]
fn retreat_from_nothing_lands_on_the_last_match() {
    assert_eq!(retreat(None, 3), Some(2));
    assert_eq!(retreat(Some(2), 3), Some(1));
    assert_eq!(retreat(Some(1), 3), Some(0));
    assert_eq!(retreat(Some(0), 3), None);
}

#[test]
fn a_single_match_is_never_highlighted() {
    assert_eq!(advance(None, 1), None);
    assert_eq!(retreat(None, 1), None);
    assert_eq!(advance(None, 0), None);
    assert_eq!(retreat(None, 0), None);
    assert_eq!(advance(Some(0), 1), Some(0));
}

#[test]
fn symbols_match_the_keysym_table() {
    assert_eq!(KEY_ESCAPE, breadx_keysyms::keysyms::KEY_Escape);
    assert_eq!(KEY_RETURN, breadx_keysyms::keysyms::KEY_Return);
    assert_eq!(KEY_TAB, breadx_keysyms::keysyms::KEY_Tab);
    assert_eq!(KEY_BACKSPACE, breadx_keysyms::keysyms::KEY_BackSpace);
    assert_eq!(KEY_SHIFT_L, breadx_keysyms::keysyms::KEY_Shift_L);
    assert_eq!(KEY_SHIFT_R, breadx_keysyms::keysyms::KEY_Shift_R);
}

#[test]
fn symbols_decode_to_keys() {
    assert_eq!(Key::from_symbol(0xff1b), Key::Escape);
    assert_eq!(Key::from_symbol(0xff0d), Key::Return);
    assert_eq!(Key::from_symbol(0xff09), Key::Tab);
    assert_eq!(Key::from_symbol(0xff08), Key::BackSpace);
    assert_eq!(Key::from_symbol(0xffe1), Key::Shift);
    assert_eq!(Key::from_symbol(0xffe2), Key::Shift);
    assert_eq!(Key::from_symbol(0x61), Key::Char('a'));
    assert_eq!(Key::from_symbol(0x41), Key::Char('A'));
    assert_eq!(Key::from_symbol(0xd800), Key::Other);
    assert_eq!(Key::from_symbol(0xdfff), Key::Other);
    assert_eq!(Key::from_symbol(0xe000), Key::Char('\u{e000}'));
    assert_eq!(Key::from_symbol(0x10ffff), Key::Char('\u{10ffff}'));
    assert_eq!(Key::from_symbol(0x110000), Key::Other);
    assert_eq!(Key::from_symbol(0x1001e6a), Key::Other);
}

#[test]
fn a_new_picker_is_empty() {
    let p = picker(&["firefox", "find", "fish"]);
    assert_eq!(p.input().as_str(), "");
    assert!(p.matches().is_empty());
    assert_eq!(p.selection(), None);
    assert!(!p.is_shift());
}

#[test]
fn typing_searches_and_lowers_the_character() {
    let mut p = picker(&["firefox", "find", "fish"]);
    type_text(&mut p, "F");
    assert_eq!(p.input().as_str(), "f");
    type_text(&mut p, "I");
    assert_eq!(p.input().as_str(), "fi");
    assert_eq!(p.matches(), &names(&["firefox", "find", "fish"]));
    assert_eq!(p.selection(), None);
}

#[test]
fn tab_cycles_and_shift_reverses() {
    let mut p = picker(&["firefox", "find", "fish"]);
    type_text(&mut p, "fi");
    for expected in [Some(0), Some(1), Some(2), None, Some(0)] {
        assert!(matches!(p.apply(Event::Press(Key::Tab)), Action::Render));
        assert_eq!(p.selection(), expected);
    }
    assert!(matches!(p.apply(Event::Press(Key::Shift)), Action::Render));
    assert!(p.is_shift());
    for expected in [None, Some(2), Some(1)] {
        assert!(matches!(p.apply(Event::Press(Key::Tab)), Action::Render));
        assert_eq!(p.selection(), expected);
    }
    assert!(matches!(p.apply(Event::Release(Key::Shift)), Action::Wait));
    assert!(!p.is_shift());
    assert!(matches!(p.apply(Event::Press(Key::Tab)), Action::Render));
    assert_eq!(p.selection(), Some(2));
}

#[test]
fn editing_drops_the_highlight() {
    let mut p = picker(&["firefox", "find", "fish"]);
    type_text(&mut p, "fi");
    p.apply(Event::Press(Key::Tab));
    p.apply(Event::Press(Key::Tab));
    assert_eq!(p.selection(), Some(1));
    type_text(&mut p, "s");
    assert_eq!(p.selection(), None);
    assert_eq!(p.input().as_str(), "fis");
    p.apply(Event::Press(Key::Tab));
    assert_eq!(p.selection(), Some(0));
    assert!(matches!(p.apply(Event::Press(Key::BackSpace)), Action::Render));
    assert_eq!(p.selection(), None);
    assert_eq!(p.input().as_str(), "fi");
    assert_eq!(p.matches(), &names(&["firefox", "find", "fish"]));
}

#[test]
fn backspace_removes_one_character_and_stops_at_empty() {
    let mut p = picker(&["firefox", "find", "fish"]);
    type_text(&mut p, "f\u{e9}");
    assert_eq!(p.input().as_str(), "f\u{e9}");
    p.apply(Event::Press(Key::BackSpace));
    assert_eq!(p.input().as_str(), "f");
    p.apply(Event::Press(Key::BackSpace));
    assert_eq!(p.input().as_str(), "");
    assert!(p.matches().is_empty());
    assert!(matches!(p.apply(Event::Press(Key::BackSpace)), Action::Render));
    assert_eq!(p.input().as_str(), "");
}

#[test]
fn commit_resolves_to_the_highlight_or_the_query() {
    let mut p = picker(&["firefox", "find", "fish"]);
    type_text(&mut p, "fi");
    match p.apply(Event::Press(Key::Return)) {
        Action::Commit(choice) => assert_eq!(choice, "fi"),
        other => panic!("unexpected {:?}", other),
    }
    p.apply(Event::Press(Key::Tab));
    p.apply(Event::Press(Key::Tab));
    match p.apply(Event::Press(Key::Return)) {
        Action::Commit(choice) => assert_eq!(choice, "find"),
        other => panic!("unexpected {:?}", other),
    }
    assert_eq!(p.resolve(), "find");
}

#[test]
fn other_events_leave_the_line_alone() {
    let mut p = picker(&["firefox", "find", "fish"]);
    type_text(&mut p, "fi");
    p.apply(Event::Press(Key::Tab));
    assert!(matches!(p.apply(Event::Close), Action::Exit));
    assert!(matches!(p.apply(Event::Expose), Action::Render));
    assert!(matches!(p.apply(Event::FocusOut), Action::Refocus));
    assert!(matches!(p.apply(Event::Press(Key::Escape)), Action::Cancel));
    assert!(matches!(p.apply(Event::Press(Key::Other)), Action::Render));
    assert!(matches!(p.apply(Event::Release(Key::Tab)), Action::Wait));
    assert_eq!(p.input().as_str(), "fi");
    assert_eq!(p.selection(), Some(0));
}

#[test]
fn typed_characters_are_lowered_beyond_ascii() {
    let mut p = picker(&["\u{e9}cole", "ecole"]);
    type_text(&mut p, "\u{c9}");
    assert_eq!(p.input().as_str(), "\u{e9}");
    assert_eq!(p.matches(), &names(&["\u{e9}cole", "ecole"]));
    type_text(&mut p, "1");
    assert_eq!(p.input().as_str(), "\u{e9}1");
}
