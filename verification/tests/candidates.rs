use dmitri::arguments::parse_u16;
use dmitri::path::{build_path, bytes_less, Entry, Executables};
use dmitri::text::RunOptions;

fn entry(name: &str, is_file: bool, mode: u32) -> Entry {
    Entry { name: name.to_string(), is_file, mode }
}

fn names(list: &[&str]) -> Vec<String> {
    list.iter().map(|s| s.to_string()).collect()
}

#[test]
fn executable_files_are_kept_once_and_sorted() {
    let entries = vec![
        entry("zsh", true, 0o755),
        entry("bash", true, 0o755),
        entry("readme", true, 0o644),
        entry("bin", false, 0o755),
        entry("bash", true, 0o700),
        entry("awk", true, 0o001),
        entry("Zed", true, 0o010),
        entry("ba", true, 0o100),
    ];
    assert_eq!(build_path(&entries), names(&["Zed", "awk", "ba", "bash", "zsh"]));
    assert_eq!(build_path(&vec![]), Vec::<String>::new());
}

#[test]
fn a_name_refused_once_can_still_be_kept() {
    let entries = vec![entry("tool", true, 0o644), entry("tool", false, 0o755), entry("tool", true, 0o755)];
    assert_eq!(build_path(&entries), names(&["tool"]));
}

#[test]
fn names_are_offered_one_by_one() {
    let mut kept = Executables::new();
    assert!(!kept.contains("ls"));
    kept.offer("ls".to_string(), true, 0o755);
    assert!(kept.contains("ls"));
    assert!(!kept.contains("l"));
    assert!(!kept.contains("lss"));
    kept.offer("cat".to_string(), true, 0o600);
    assert!(!kept.contains("cat"));
    kept.offer("cat".to_string(), true, 0o611);
    kept.offer("ls".to_string(), true, 0o755);
    assert_eq!(kept.into_sorted(), names(&["cat", "ls"]));
}

#[test]
fn names_sort_as_strings_do() {
    let mut list = names(&["b", "a", "ab", "", "B", "\u{e9}", "z", "a\u{0}", "aa", "~"]);
    let entries: Vec<Entry> = list.iter().map(|n| entry(n, true, 0o111)).collect();
    list.sort();
    assert_eq!(build_path(&entries), list);
    assert!(bytes_less(b"a", b"b"));
    assert!(bytes_less(b"a", b"ab"));
    assert!(bytes_less(b"", b"a"));
    assert!(!bytes_less(b"a", b"a"));
    assert!(!bytes_less(b"b", b"a"));
    assert!(!bytes_less(b"ab", b"a"));
    assert!(!bytes_less(b"", b""));
}

#[test]
fn arguments_are_read_or_replaced() {
    let o = RunOptions::from_arguments(
        Some("mono".to_string()),
        Some("24".to_string()),
        Some("#ff8800".to_string()),
        Some("3".to_string()),
        Some(2.5f32.to_bits()),
    );
    assert_eq!(o.fontname, Some("mono".to_string()));
    assert_eq!(o.fontsize, 24);
    assert_eq!(o.color, (0xffff, 0x8800, 0));
    assert_eq!(o.margin, 3);
    assert_eq!(o.precise_wheight.parts(), (5 << 21, 22));
    let o = RunOptions::from_arguments(
        None,
        Some("big".to_string()),
        Some("orange".to_string()),
        Some("65536".to_string()),
        Some((-1.0f32).to_bits()),
    );
    assert_eq!(o.fontname, None);
    assert_eq!(o.fontsize, 32);
    assert_eq!(o.color, (65535, 32512, 0));
    assert_eq!(o.margin, 7);
    assert_eq!(o.precise_wheight.parts(), (5, 0));
    let o = RunOptions::from_arguments(None, None, Some("#123".to_string()), None, None);
    assert_eq!(o.color, (0x11ff, 0x2200, 0x3300));
    assert_eq!(o.fontsize, 32);
    assert_eq!(o.margin, 7);
    assert_eq!(o.precise_wheight.parts(), (5, 0));
}

#[test]
fn numbers_are_read_as_the_standard_library_reads_them() {
    let texts = [
        "0", "7", "007", "+5", "65535", "65536", "+65535", "000065535", "99999999999999999999",
        "", "+", "-", "-1", "-0", " 5", "5 ", "1_000", "0x10", "1e3", "\u{663}", "+-5", "++5",
        "12a", "a12", "32", "4294967296", "+0", "1.0",
    ];
    for text in texts {
        assert_eq!(parse_u16(text), text.parse::<u16>().ok(), "{:?}", text);
    }
    assert_eq!(parse_u16("32"), Some(32));
    assert_eq!(parse_u16("+65535"), Some(65535));
    assert_eq!(parse_u16("65536"), None);
    assert_eq!(parse_u16(""), None);
}

#[test]
fn colors_are_read_from_hexadecimal() {
    let color = |text: &str| {
        RunOptions::from_arguments(None, None, Some(text.to_string()), None, None).color
    };
    let usual = (65535, 32512, 0);
    assert_eq!(color("#000000"), (0x00ff, 0, 0));
    assert_eq!(color("#FFFFFF"), (0xffff, 0xff00, 0xff00));
    assert_eq!(color("#a1B2c3"), (0xa1ff, 0xb200, 0xc300));
    assert_eq!(color("a1b2c3"), usual);
    assert_eq!(color("#a1b2cg"), usual);
    assert_eq!(color(""), usual);
    assert_eq!(color("#12345"), usual);
    assert_eq!(color("#\u{e9}\u{e9}\u{e9}"), usual);
    assert_eq!(color("#a\u{e9}\u{20ac}"), usual);
    assert_eq!(color("#abc\u{e9}def"), usual);
}
