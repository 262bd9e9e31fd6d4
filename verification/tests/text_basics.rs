use sch_bus::path::file_label;
use sch_bus::text::{
    contains_whitespace, decimal_text, find, is_whitespace, place, same_text, trims_to_nothing,
    Place,
};

#[test]
fn white_space_is_that_of_unicode() {
    for code in 0..=0x10ffffu32 {
        if let Some(c) = char::from_u32(code) {
            assert_eq!(is_whitespace(c), c.is_whitespace(), "U+{:04X}", code);
        }
    }
}

#[test]
fn white_space_in_texts() {
    assert!(!contains_whitespace(""));
    assert!(!contains_whitespace("D0_P"));
    assert!(contains_whitespace("not ok"));
    assert!(contains_whitespace("a\u{3000}"));
    assert!(trims_to_nothing(""));
    assert!(trims_to_nothing(" \t\n\u{a0}"));
    assert!(!trims_to_nothing("  x "));
}

#[test]
fn search_finds_the_leftmost() {
    let cases = [
        ("abcabc", "bc"),
        ("abcabc", "cab"),
        ("abcabc", ""),
        ("", ""),
        ("", "a"),
        ("aaab", "aab"),
        ("abc", "abcd"),
        ("Ω(uuid", "(uuid"),
        ("abc", "x"),
    ];
    for (text, needle) in cases {
        assert_eq!(find(text.as_bytes(), needle.as_bytes()), text.find(needle));
    }
}

#[test]
fn order_is_that_of_strings() {
    let texts = ["", "A", "AB", "B", "a", "Ω", "ab", "\u{10000}", "\u{ffff}", "A0", "A-"];
    for a in texts {
        for b in texts {
            let expected = if a < b {
                Place::Before
            } else if a == b {
                Place::Same
            } else {
                Place::After
            };
            assert_eq!(place(a, b), expected, "{a:?} {b:?}");
            assert_eq!(same_text(a, b), a == b);
        }
    }
}

#[test]
fn decimal_numerals() {
    for n in [0usize, 1, 9, 10, 11, 42, 99, 100, 1234567890, usize::MAX] {
        assert_eq!(decimal_text(n), n.to_string());
    }
}

#[test]
fn file_labels_are_file_names() {
    assert_eq!(file_label("/home/u/root.kicad_sch"), "root.kicad_sch");
    assert_eq!(file_label("root.kicad_sch"), "root.kicad_sch");
    assert_eq!(file_label("./sub/child.kicad_sch"), "child.kicad_sch");
    assert_eq!(file_label("sub//"), "sub");
    assert_eq!(file_label("sub/."), "sub");
    assert_eq!(file_label("sub/./"), "sub");
    assert_eq!(file_label("sub/.."), "sub/..");
    assert_eq!(file_label(".."), "..");
    assert_eq!(file_label("."), ".");
    assert_eq!(file_label("./."), "./.");
    assert_eq!(file_label("/"), "/");
    assert_eq!(file_label(""), "");
    assert_eq!(file_label("..."), "...");
    assert_eq!(file_label("a/.b"), ".b");
}

#[test]
fn file_labels_follow_the_rules_of_paths() {
    let paths = [
        "/home/u/root.kicad_sch", "root.kicad_sch", "./a", "a/b/", "a/b//", "a/.", "a/./.", "a/..",
        "../a", "..", ".", "./.", "/", "//", "", "...", "a/...", "/.", "/..", "a/b/../c", "a b/c d",
    ];
    for text in paths {
        let path = std::path::Path::new(text);
        let expected = path
            .file_name()
            .map(|n| n.to_string_lossy().into_owned())
            .unwrap_or_else(|| path.display().to_string());
        assert_eq!(file_label(text), expected, "{text:?}");
    }
}
